//! YAML document model for configuration and themes, with the lenient
//! accessors that theme widgets use (hand-edited files mix `true`/`yes`,
//! quoted numbers, missing keys) and the recursive overlay merge.

use vstd::prelude::*;
use vstd::string::StringExecFns;
use vstd::string::StrSliceExecFns;
use crate::fmt::{dec, int_dec, push_dec};
use crate::text::{lower_eq, lower_seq, parse_int, parse_signed, str_eq, trim, trim_spec};

verus! {

/// A YAML number as the parser classified it.
pub enum YamlNumber {
    /// A non-negative integer.
    PosInt(u64),
    /// A negative integer.
    NegInt(i64),
    /// A float, kept as its canonical text and its saturating `as i32`
    /// truncation.
    Float { text: String, truncated: i32 },
}

/// A YAML value. Mappings keep their entries in document order.
pub enum Yaml {
    Null,
    Bool(bool),
    Number(YamlNumber),
    String(String),
    Sequence(Vec<Yaml>),
    Mapping(Vec<(Yaml, Yaml)>),
    /// `!tag value`; the tag is stored without its leading `!`.
    Tagged(String, Box<Yaml>),
}

/// Canonical text of a float zero.
pub open spec fn is_zero_text(t: Seq<char>) -> bool {
    t == "0.0"@ || t == "-0.0"@
}

/// Mathematical form of a YAML value.
pub enum YamlV {
    Null,
    Bool(bool),
    Number(YamlNumberV),
    String(Seq<char>),
    Sequence(Seq<YamlV>),
    Mapping(Seq<(YamlV, YamlV)>),
    Tagged(Seq<char>, Box<YamlV>),
}

/// Mathematical form of a YAML number.
pub enum YamlNumberV {
    PosInt(u64),
    NegInt(i64),
    /// A float by its canonical text (both zeros written `0.0`, as they are
    /// the same number) and its saturating `as i32` truncation.
    Float(Seq<char>, i32),
}

impl View for YamlNumber {
    type V = YamlNumberV;

    open spec fn view(&self) -> YamlNumberV {
        match self {
            YamlNumber::PosInt(u) => YamlNumberV::PosInt(*u),
            YamlNumber::NegInt(i) => YamlNumberV::NegInt(*i),
            YamlNumber::Float { text, truncated } => YamlNumberV::Float(
                if is_zero_text(text@) { "0.0"@ } else { text@ },
                *truncated,
            ),
        }
    }
}

/// Item-wise view of sequence items.
pub open spec fn items_v(v: Seq<Yaml>) -> Seq<YamlV>
    decreases v,
{
    Seq::new(
        v.len(),
        |i: int|
            if 0 <= i < v.len() {
                proof {
                    assert(decreases_to!(v => v[i]));
                }
                yv(v[i])
            } else {
                YamlV::Null
            },
    )
}

/// Entry-wise view of mapping entries.
pub open spec fn entries_v(m: Seq<(Yaml, Yaml)>) -> Seq<(YamlV, YamlV)>
    decreases m,
{
    Seq::new(
        m.len(),
        |i: int|
            if 0 <= i < m.len() {
                proof {
                    assert(decreases_to!(m => m[i]));
                    assert(decreases_to!(m[i] => m[i].0));
                    assert(decreases_to!(m[i] => m[i].1));
                }
                (yv(m[i].0), yv(m[i].1))
            } else {
                (YamlV::Null, YamlV::Null)
            },
    )
}

/// Mathematical form of a value.
pub open spec fn yv(y: Yaml) -> YamlV
    decreases y,
{
    match y {
        Yaml::Null => YamlV::Null,
        Yaml::Bool(b) => YamlV::Bool(b),
        Yaml::Number(n) => YamlV::Number(n@),
        Yaml::String(s) => YamlV::String(s@),
        Yaml::Sequence(v) => YamlV::Sequence(items_v(v@)),
        Yaml::Mapping(m) => YamlV::Mapping(entries_v(m@)),
        Yaml::Tagged(t, b) => YamlV::Tagged(t@, Box::new(yv(*b))),
    }
}

fn zero_text(t: &str) -> (b: bool)
    ensures
        b == is_zero_text(t@),
{
    str_eq(t, "0.0") || str_eq(t, "-0.0")
}

fn number_eq(a: &YamlNumber, b: &YamlNumber) -> (r: bool)
    ensures
        r == (a@ == b@),
{
    match (a, b) {
        (YamlNumber::PosInt(x), YamlNumber::PosInt(y)) => *x == *y,
        (YamlNumber::NegInt(x), YamlNumber::NegInt(y)) => *x == *y,
        (YamlNumber::Float { text: x, truncated: tx }, YamlNumber::Float { text: y, truncated: ty }) => {
            let zx = zero_text(x.as_str());
            let zy = zero_text(y.as_str());
            let same_text = if zx || zy {
                zx && zy
            } else {
                str_eq(x.as_str(), y.as_str())
            };
            same_text && *tx == *ty
        },
        _ => false,
    }
}

proof fn lemma_seq_views(xs: Seq<Yaml>, ys: Seq<Yaml>)
    ensures
        (items_v(xs) == items_v(ys)) <==> (xs.len() == ys.len() && forall|i: int|
            0 <= i < xs.len() ==> yv(#[trigger] xs[i]) == yv(ys[i])),
{
    let sx = items_v(xs);
    let sy = items_v(ys);
    assert(sx.len() == xs.len());
    assert(sy.len() == ys.len());
    if xs.len() == ys.len() && forall|i: int| 0 <= i < xs.len() ==> yv(#[trigger] xs[i]) == yv(ys[i]) {
        assert forall|i: int| 0 <= i < sx.len() implies sx[i] == sy[i] by {
            assert(sx[i] == yv(xs[i]));
            assert(sy[i] == yv(ys[i]));
        }
        assert(sx =~= sy);
    }
    if sx == sy {
        assert forall|i: int| 0 <= i < xs.len() implies yv(#[trigger] xs[i]) == yv(ys[i]) by {
            assert(sx[i] == yv(xs[i]));
            assert(sy[i] == yv(ys[i]));
            assert(sx[i] == sy[i]);
        }
    }
}

proof fn lemma_map_views(xs: Seq<(Yaml, Yaml)>, ys: Seq<(Yaml, Yaml)>)
    ensures
        (entries_v(xs) == entries_v(ys)) <==> (xs.len() == ys.len() && forall|i: int|
            0 <= i < xs.len() ==> yv((#[trigger] xs[i]).0) == yv(ys[i].0) && yv(xs[i].1) == yv(ys[i].1)),
{
    let sx = entries_v(xs);
    let sy = entries_v(ys);
    assert(sx.len() == xs.len());
    assert(sy.len() == ys.len());
    if xs.len() == ys.len() && forall|i: int|
        0 <= i < xs.len() ==> yv((#[trigger] xs[i]).0) == yv(ys[i].0) && yv(xs[i].1) == yv(ys[i].1) {
        assert forall|i: int| 0 <= i < sx.len() implies sx[i] == sy[i] by {
            assert(sx[i] == (yv(xs[i].0), yv(xs[i].1)));
            assert(sy[i] == (yv(ys[i].0), yv(ys[i].1)));
        }
        assert(sx =~= sy);
    }
    if sx == sy {
        assert forall|i: int| 0 <= i < xs.len() implies yv((#[trigger] xs[i]).0) == yv(ys[i].0) && yv(xs[i].1)
            == yv(ys[i].1) by {
            assert(sx[i] == (yv(xs[i].0), yv(xs[i].1)));
            assert(sy[i] == (yv(ys[i].0), yv(ys[i].1)));
            assert(sx[i] == sy[i]);
        }
    }
}

fn seq_eq(a: &Yaml, xs: &Vec<Yaml>, ys: &Vec<Yaml>) -> (r: bool)
    requires
        *a == Yaml::Sequence(*xs),
    ensures
        r == (xs@.len() == ys@.len() && forall|i: int| 0 <= i < xs@.len() ==> yv(#[trigger] xs@[i]) == yv(ys@[i])),
    decreases a, 0nat,
{
    if xs.len() != ys.len() {
        return false;
    }
    let mut i: usize = 0;
    while i < xs.len()
        invariant
            i <= xs@.len(),
            xs@.len() == ys@.len(),
            *a == Yaml::Sequence(*xs),
            forall|k: int| 0 <= k < i ==> yv(#[trigger] xs@[k]) == yv(ys@[k]),
        decreases xs@.len() - i,
    {
        proof {
            let sv = Yaml::Sequence(*xs);
            assert(decreases_to!(sv => sv->Sequence_0));
            assert(decreases_to!(*xs => xs@));
            assert(decreases_to!(xs@ => xs@[i as int]));
            assert(decreases_to!(*a => xs@[i as int]));
        }
        if !yaml_eq(&xs[i], &ys[i]) {
            return false;
        }
        i = i + 1;
    }
    true
}

fn map_eq(a: &Yaml, xs: &Vec<(Yaml, Yaml)>, ys: &Vec<(Yaml, Yaml)>) -> (r: bool)
    requires
        *a == Yaml::Mapping(*xs),
    ensures
        r == (xs@.len() == ys@.len() && forall|i: int|
            0 <= i < xs@.len() ==> yv((#[trigger] xs@[i]).0) == yv(ys@[i].0) && yv(xs@[i].1) == yv(ys@[i].1)),
    decreases a, 0nat,
{
    if xs.len() != ys.len() {
        return false;
    }
    let mut i: usize = 0;
    while i < xs.len()
        invariant
            i <= xs@.len(),
            xs@.len() == ys@.len(),
            *a == Yaml::Mapping(*xs),
            forall|k: int| 0 <= k < i ==> yv((#[trigger] xs@[k]).0) == yv(ys@[k].0) && yv(xs@[k].1) == yv(ys@[k].1),
        decreases xs@.len() - i,
    {
        proof {
            let mv = Yaml::Mapping(*xs);
            assert(decreases_to!(mv => mv->Mapping_0));
            assert(decreases_to!(*xs => xs@));
            assert(decreases_to!(xs@ => xs@[i as int]));
            assert(decreases_to!(xs@[i as int] => xs@[i as int].0));
            assert(decreases_to!(xs@[i as int] => xs@[i as int].1));
            assert(decreases_to!(*a => xs@[i as int].0));
            assert(decreases_to!(*a => xs@[i as int].1));
        }
        if !yaml_eq(&xs[i].0, &ys[i].0) {
            return false;
        }
        if !yaml_eq(&xs[i].1, &ys[i].1) {
            return false;
        }
        assert(yv(xs@[i as int].0) == yv(ys@[i as int].0) && yv(xs@[i as int].1) == yv(ys@[i as int].1));
        i = i + 1;
    }
    true
}

/// Equality of two values: same structure, sequence and mapping entries
/// in the same order, numbers of the same kind and value.
pub fn yaml_eq(a: &Yaml, b: &Yaml) -> (r: bool)
    ensures
        r == (yv(*a) == yv(*b)),
    decreases a, 1nat,
{
    match a {
        Yaml::Null => match b {
            Yaml::Null => true,
            _ => false,
        },
        Yaml::Bool(x) => match b {
            Yaml::Bool(y) => *x == *y,
            _ => false,
        },
        Yaml::Number(x) => match b {
            Yaml::Number(y) => number_eq(x, y),
            _ => false,
        },
        Yaml::String(x) => match b {
            Yaml::String(y) => str_eq(x.as_str(), y.as_str()),
            _ => false,
        },
        Yaml::Sequence(xs) => match b {
            Yaml::Sequence(ys) => {
                let r = seq_eq(a, xs, ys);
                proof {
                    lemma_seq_views(xs@, ys@);
                }
                r
            },
            _ => false,
        },
        Yaml::Mapping(xs) => match b {
            Yaml::Mapping(ys) => {
                let r = map_eq(a, xs, ys);
                proof {
                    lemma_map_views(xs@, ys@);
                    assert(yv(*a) == YamlV::Mapping(entries_v(xs@)));
                    assert(yv(*b) == YamlV::Mapping(entries_v(ys@)));
                }
                r
            },
            _ => false,
        },
        Yaml::Tagged(t, x) => match b {
            Yaml::Tagged(u, y) => str_eq(t.as_str(), u.as_str()) && yaml_eq(x, y),
            _ => false,
        },
    }
}

/// `k` is the string key `key`.
pub open spec fn key_is(k: Yaml, key: Seq<char>) -> bool {
    k matches Yaml::String(s) && s@ == key
}

/// `i` is the first entry of `m` whose key is the string `key`.
pub open spec fn is_first_key(m: Seq<(Yaml, Yaml)>, key: Seq<char>, i: int) -> bool {
    &&& 0 <= i < m.len()
    &&& key_is(m[i].0, key)
    &&& forall|j: int| 0 <= j < i ==> !key_is(#[trigger] m[j].0, key)
}

/// Value stored under the string key `key` of a mapping.
pub open spec fn child_spec(v: Yaml, key: Seq<char>) -> Option<Yaml> {
    match v {
        Yaml::Mapping(m) => if exists|i: int| is_first_key(m@, key, i) {
            Some(m@[choose|i: int| is_first_key(m@, key, i)].1)
        } else {
            None
        },
        _ => None,
    }
}

/// The value an optional reference points to.
pub open spec fn opt_val(r: Option<&Yaml>) -> Option<Yaml> {
    match r {
        Some(x) => Some(*x),
        None => None,
    }
}

proof fn lemma_first_key_unique(m: Seq<(Yaml, Yaml)>, key: Seq<char>, i: int, j: int)
    requires
        is_first_key(m, key, i),
        is_first_key(m, key, j),
    ensures
        i == j,
{
    if i < j {
        assert(!key_is(m[i].0, key));
    } else if j < i {
        assert(!key_is(m[j].0, key));
    }
}

/// Entry of a mapping under a string key; `None` for other values.
pub fn child<'a>(v: &'a Yaml, key: &str) -> (r: Option<&'a Yaml>)
    ensures
        opt_val(r) == child_spec(*v, key@),
{
    match v {
        Yaml::Mapping(m) => {
            let mut i: usize = 0;
            while i < m.len()
                invariant
                    i <= m@.len(),
                    *v == Yaml::Mapping(*m),
                    forall|j: int| 0 <= j < i ==> !key_is(#[trigger] m@[j].0, key@),
                decreases m@.len() - i,
            {
                let hit = match &m[i].0 {
                    Yaml::String(s) => str_eq(s.as_str(), key),
                    _ => false,
                };
                if hit {
                    proof {
                        assert(is_first_key(m@, key@, i as int));
                        let c = choose|k: int| is_first_key(m@, key@, k);
                        lemma_first_key_unique(m@, key@, i as int, c);
                    }
                    return Some(&m[i].1);
                }
                i = i + 1;
            }
            assert(!exists|k: int| is_first_key(m@, key@, k)) by {
                if exists|k: int| is_first_key(m@, key@, k) {
                    let c = choose|k: int| is_first_key(m@, key@, k);
                    assert(!key_is(m@[c].0, key@));
                }
            }
            None
        },
        _ => None,
    }
}

/// A value with its tags taken off.
pub open spec fn untagged(v: Yaml) -> Yaml
    decreases v,
{
    match v {
        Yaml::Tagged(_, b) => untagged(*b),
        _ => v,
    }
}

/// The value under its tags.
pub fn untag_ref(v: &Yaml) -> (r: &Yaml)
    ensures
        *r == untagged(*v),
    decreases v,
{
    match v {
        Yaml::Tagged(_, b) => untag_ref(b),
        _ => v,
    }
}

/// Entry under a string key of a value whose tags are taken off first
/// (`Value::get` with a key).
pub fn get_entry<'a>(v: &'a Yaml, key: &str) -> (r: Option<&'a Yaml>)
    ensures
        opt_val(r) == child_spec(untagged(*v), key@),
{
    child(untag_ref(v), key)
}

/// Follows `keys` down nested mappings.
pub open spec fn path_spec(v: Yaml, keys: Seq<Seq<char>>) -> Option<Yaml>
    decreases keys.len(),
{
    if keys.len() == 0 {
        Some(v)
    } else {
        match child_spec(v, keys[0]) {
            Some(c) => path_spec(c, keys.drop_first()),
            None => None,
        }
    }
}

proof fn lemma_path_step(v: Yaml, keys: Seq<Seq<char>>, i: int, c: Yaml)
    requires
        0 <= i < keys.len(),
        path_spec(v, keys.subrange(0, i)) == Some(c),
    ensures
        path_spec(v, keys.subrange(0, i + 1)) == match child_spec(c, keys[i]) {
            Some(d) => Some(d),
            None => None::<Yaml>,
        },
    decreases i,
{
    let pre = keys.subrange(0, i + 1);
    let sub = keys.subrange(0, i);
    assert(pre[0] == keys[0]);
    if i == 0 {
        assert(sub =~= Seq::<Seq<char>>::empty());
        assert(pre.drop_first() =~= Seq::<Seq<char>>::empty());
        match child_spec(v, keys[0]) {
            Some(d) => {
                assert(path_spec(d, pre.drop_first()) == Some(d));
            },
            None => {},
        }
    } else {
        assert(sub[0] == keys[0]);
        let c0 = child_spec(v, keys[0]).unwrap();
        assert(sub.drop_first() =~= keys.drop_first().subrange(0, i - 1));
        assert(pre.drop_first() =~= keys.drop_first().subrange(0, i));
        assert(keys.drop_first()[i - 1] == keys[i]);
        lemma_path_step(c0, keys.drop_first(), i - 1, c);
    }
}

/// Value reached by following `keys` through nested mappings.
pub fn path<'a>(v: &'a Yaml, keys: &[&str]) -> (r: Option<&'a Yaml>)
    ensures
        opt_val(r) == path_spec(*v, keys@.map_values(|k: &str| k@)),
{
    let ghost ks = keys@.map_values(|k: &str| k@);
    let mut cur: &Yaml = v;
    let mut i: usize = 0;
    while i < keys.len()
        invariant
            i <= keys@.len(),
            ks == keys@.map_values(|k: &str| k@),
            path_spec(*v, ks.subrange(0, i as int)) == Some(*cur),
        decreases keys@.len() - i,
    {
        proof {
            lemma_path_step(*v, ks, i as int, *cur);
        }
        match child(cur, keys[i]) {
            Some(c) => {
                cur = c;
            },
            None => {
                proof {
                    lemma_path_none(*v, ks, i as int + 1);
                }
                return None;
            },
        }
        i = i + 1;
    }
    assert(ks.subrange(0, keys@.len() as int) =~= ks);
    Some(cur)
}

proof fn lemma_path_none(v: Yaml, keys: Seq<Seq<char>>, i: int)
    requires
        0 <= i <= keys.len(),
        path_spec(v, keys.subrange(0, i)) is None,
    ensures
        path_spec(v, keys) is None,
    decreases keys.len() - i,
{
    if i < keys.len() {
        assert(path_spec(v, keys.subrange(0, i + 1)) is None) by {
            lemma_path_prefix_none(v, keys, i);
        }
        lemma_path_none(v, keys, i + 1);
    } else {
        assert(keys.subrange(0, i) =~= keys);
    }
}

proof fn lemma_path_prefix_none(v: Yaml, keys: Seq<Seq<char>>, i: int)
    requires
        0 <= i < keys.len(),
        path_spec(v, keys.subrange(0, i)) is None,
    ensures
        path_spec(v, keys.subrange(0, i + 1)) is None,
    decreases i,
{
    if i > 0 {
        match child_spec(v, keys[0]) {
            Some(c0) => {
                assert(keys.subrange(0, i).drop_first() =~= keys.drop_first().subrange(0, i - 1));
                assert(keys.subrange(0, i + 1).drop_first() =~= keys.drop_first().subrange(0, i));
                lemma_path_prefix_none(c0, keys.drop_first(), i - 1);
            },
            None => {},
        }
    }
}

/// Lenient boolean: YAML booleans, integers (non-zero is true) and the
/// strings `true/yes/on/1`, `false/no/off/0` in any ASCII case.
pub open spec fn as_bool_spec(v: Yaml) -> Option<bool> {
    match v {
        Yaml::Bool(b) => Some(b),
        Yaml::Number(YamlNumber::PosInt(u)) => Some(u != 0),
        Yaml::String(s) => {
            let l = lower_seq(s@);
            if l == "true"@ || l == "yes"@ || l == "on"@ || l == "1"@ {
                Some(true)
            } else if l == "false"@ || l == "no"@ || l == "off"@ || l == "0"@ {
                Some(false)
            } else {
                None
            }
        },
        _ => None,
    }
}

/// Lenient boolean reading of a value.
pub fn as_bool(v: &Yaml) -> (r: Option<bool>)
    ensures
        r == as_bool_spec(*v),
{
    match v {
        Yaml::Bool(b) => Some(*b),
        Yaml::Number(YamlNumber::PosInt(u)) => Some(*u != 0),
        Yaml::String(s) => {
            let t = s.as_str();
            if lower_eq(t, "true") || lower_eq(t, "yes") || lower_eq(t, "on") || lower_eq(t, "1") {
                Some(true)
            } else if lower_eq(t, "false") || lower_eq(t, "no") || lower_eq(t, "off") || lower_eq(t, "0") {
                Some(false)
            } else {
                None
            }
        },
        _ => None,
    }
}

/// Lenient `i32`: integers truncated to 32 bits, floats truncated
/// toward zero (saturating), trimmed decimal strings, booleans as 0/1.
pub open spec fn as_i32_spec(v: Yaml) -> Option<i32> {
    match v {
        Yaml::Number(YamlNumber::PosInt(u)) => Some(u as i32),
        Yaml::Number(YamlNumber::NegInt(i)) => Some(i as i32),
        Yaml::Number(YamlNumber::Float { truncated, .. }) => Some(truncated),
        Yaml::String(s) => match parse_signed(trim_spec(s@), 10) {
            Some(x) => if -0x8000_0000 <= x <= 0x7FFF_FFFF { Some(x as i32) } else { None },
            None => None,
        },
        Yaml::Bool(b) => Some(if b { 1i32 } else { 0i32 }),
        _ => None,
    }
}

/// Lenient integer reading of a value.
pub fn as_i32(v: &Yaml) -> (r: Option<i32>)
    ensures
        r == as_i32_spec(*v),
{
    match v {
        Yaml::Number(YamlNumber::PosInt(u)) => Some(*u as i32),
        Yaml::Number(YamlNumber::NegInt(i)) => Some(*i as i32),
        Yaml::Number(YamlNumber::Float { truncated, .. }) => Some(*truncated),
        Yaml::String(s) => {
            let t = trim(s.as_str());
            match parse_int(t, 10, 0x8000_0000, 0x7FFF_FFFF) {
                Some(x) => Some(x as i32),
                None => None,
            }
        },
        Yaml::Bool(b) => Some(if *b { 1i32 } else { 0i32 }),
        _ => None,
    }
}

/// Text of a number as the YAML library prints it.
pub open spec fn number_text(n: YamlNumber) -> Seq<char> {
    match n {
        YamlNumber::PosInt(u) => dec(u as nat),
        YamlNumber::NegInt(i) => int_dec(i as int),
        YamlNumber::Float { text, .. } => text@,
    }
}

/// Text of a number.
pub fn number_string(n: &YamlNumber) -> (s: String)
    ensures
        s@ == number_text(*n),
{
    match n {
        YamlNumber::PosInt(u) => crate::fmt::dec_string(*u),
        YamlNumber::NegInt(i) => {
            let mut s = String::new();
            if *i < 0 {
                s.append("-");
                proof {
                    reveal_strlit("-");
                }
            }
            let mag: u64 = if *i == i64::MIN { 9223372036854775808u64 } else if *i < 0 { (-*i) as u64 } else { *i as u64 };
            push_dec(&mut s, mag);
            assert(s@ =~= int_dec(*i as int));
            s
        },
        YamlNumber::Float { text, .. } => text.clone(),
    }
}

/// Lenient string: strings, numbers and booleans as text.
pub open spec fn as_string_spec(v: Yaml) -> Option<Seq<char>> {
    match v {
        Yaml::String(s) => Some(s@),
        Yaml::Number(n) => Some(number_text(n)),
        Yaml::Bool(b) => Some(if b { "true"@ } else { "false"@ }),
        _ => None,
    }
}

/// Lenient text reading of a value.
pub fn as_string(v: &Yaml) -> (r: Option<String>)
    ensures
        r matches Some(s) ==> as_string_spec(*v) == Some(s@),
        r is None ==> as_string_spec(*v) is None,
{
    match v {
        Yaml::String(s) => Some(s.clone()),
        Yaml::Number(n) => Some(number_string(n)),
        Yaml::Bool(b) => Some(if *b { String::from_str("true") } else { String::from_str("false") }),
        _ => None,
    }
}

/// `child(v, key)` read as a boolean, else `default`.
pub open spec fn get_bool_spec(v: Yaml, key: Seq<char>, default: bool) -> bool {
    match child_spec(v, key) {
        Some(c) => match as_bool_spec(c) {
            Some(b) => b,
            None => default,
        },
        None => default,
    }
}

/// Boolean under `key`, or `default` when absent or unreadable.
pub fn get_bool(v: &Yaml, key: &str, default: bool) -> (r: bool)
    ensures
        r == get_bool_spec(*v, key@, default),
{
    match child(v, key) {
        Some(c) => match as_bool(c) {
            Some(b) => b,
            None => default,
        },
        None => default,
    }
}

/// `child(v, key)` read as an `i32`, else `default`.
pub open spec fn get_i32_spec(v: Yaml, key: Seq<char>, default: i32) -> i32 {
    match child_spec(v, key) {
        Some(c) => match as_i32_spec(c) {
            Some(x) => x,
            None => default,
        },
        None => default,
    }
}

/// Integer under `key`, or `default` when absent or unreadable.
pub fn get_i32(v: &Yaml, key: &str, default: i32) -> (r: i32)
    ensures
        r == get_i32_spec(*v, key@, default),
{
    match child(v, key) {
        Some(c) => match as_i32(c) {
            Some(x) => x,
            None => default,
        },
        None => default,
    }
}

/// `child(v, key)` read as text, else `default`.
pub open spec fn get_string_spec(v: Yaml, key: Seq<char>, default: Seq<char>) -> Seq<char> {
    match child_spec(v, key) {
        Some(c) => match as_string_spec(c) {
            Some(s) => s,
            None => default,
        },
        None => default,
    }
}

/// Text under `key`, or `default` when absent or not a scalar.
pub fn get_string(v: &Yaml, key: &str, default: &str) -> (r: String)
    ensures
        r@ == get_string_spec(*v, key@, default@),
{
    match child(v, key) {
        Some(c) => match as_string(c) {
            Some(s) => s,
            None => String::from_str(default),
        },
        None => String::from_str(default),
    }
}

/// Integer item of a sequence, 0 when unreadable.
pub open spec fn item_i32(x: Yaml) -> i32 {
    match as_i32_spec(x) {
        Some(n) => n,
        None => 0,
    }
}

/// `[x0, y0, x1, y1]` under `key` when it is a four-item sequence.
pub open spec fn bbox4_spec(v: Yaml, key: Seq<char>) -> [i32; 4] {
    match child_spec(v, key) {
        Some(Yaml::Sequence(s)) => if s@.len() == 4 {
            [item_i32(s@[0]), item_i32(s@[1]), item_i32(s@[2]), item_i32(s@[3])]
        } else {
            [0i32, 0i32, 0i32, 0i32]
        },
        _ => [0i32, 0i32, 0i32, 0i32],
    }
}

fn item_or_zero(x: &Yaml) -> (n: i32)
    ensures
        n == item_i32(*x),
{
    match as_i32(x) {
        Some(n) => n,
        None => 0,
    }
}

/// Four-integer box under `key` (`CUSTOM_BBOX`), zeros otherwise.
pub fn get_bbox4(v: &Yaml, key: &str) -> (r: [i32; 4])
    ensures
        r == bbox4_spec(*v, key@),
{
    match child(v, key) {
        Some(Yaml::Sequence(s)) => {
            if s.len() == 4 {
                [item_or_zero(&s[0]), item_or_zero(&s[1]), item_or_zero(&s[2]), item_or_zero(&s[3])]
            } else {
                [0, 0, 0, 0]
            }
        },
        _ => [0, 0, 0, 0],
    }
}

/// `[dx, dy]` under `key` when it is a two-item sequence.
pub open spec fn offset2_spec(v: Yaml, key: Seq<char>) -> [i32; 2] {
    match child_spec(v, key) {
        Some(Yaml::Sequence(s)) => if s@.len() == 2 {
            [item_i32(s@[0]), item_i32(s@[1])]
        } else {
            [0i32, 0i32]
        },
        _ => [0i32, 0i32],
    }
}

/// Two-integer offset under `key` (`TEXT_OFFSET`), zeros otherwise.
pub fn get_offset2(v: &Yaml, key: &str) -> (r: [i32; 2])
    ensures
        r == offset2_spec(*v, key@),
{
    match child(v, key) {
        Some(Yaml::Sequence(s)) => {
            if s.len() == 2 {
                [item_or_zero(&s[0]), item_or_zero(&s[1])]
            } else {
                [0, 0]
            }
        },
        _ => [0, 0],
    }
}

/// `LINE_GRAPH.HISTORY_SIZE`, at least 2; 10 when absent or unreadable.
pub open spec fn history_size_spec(v: Yaml) -> int {
    match child_spec(v, "LINE_GRAPH"@) {
        Some(g) => match child_spec(g, "HISTORY_SIZE"@) {
            Some(h) => match as_i32_spec(h) {
                Some(n) => if n < 2 { 2 } else { n as int },
                None => 10,
            },
            None => 10,
        },
        None => 10,
    }
}

/// Number of samples a line graph keeps.
pub fn history_size(v: &Yaml) -> (n: usize)
    ensures
        n as int == history_size_spec(*v),
{
    match child(v, "LINE_GRAPH") {
        Some(g) => match child(g, "HISTORY_SIZE") {
            Some(h) => match as_i32(h) {
                Some(n) => if n < 2 { 2 } else { n as usize },
                None => 10,
            },
            None => 10,
        },
        None => 10,
    }
}

/// `i` is the first entry of `m` whose key is `k`.
pub open spec fn first_entry(m: Seq<(YamlV, YamlV)>, k: YamlV, i: int) -> bool {
    &&& 0 <= i < m.len()
    &&& m[i].0 == k
    &&& forall|j: int| 0 <= j < i ==> (#[trigger] m[j]).0 != k
}

/// `acc` after the entries `o` were laid over it in order: a new key is
/// appended; an existing one is removed by moving the last entry into its
/// place, then appended with the merged value.
pub open spec fn merge_entries(acc: Seq<(YamlV, YamlV)>, o: Seq<(YamlV, YamlV)>) -> Seq<(YamlV, YamlV)>
    decreases o,
{
    if o.len() == 0 {
        acc
    } else {
        let prev = merge_entries(acc, o.drop_last());
        let e = o.last();
        proof {
            assert(decreases_to!(o => o[o.len() - 1]));
            assert(decreases_to!(o[o.len() - 1] => o[o.len() - 1].1));
        }
        if exists|i: int| first_entry(prev, e.0, i) {
            let i = choose|i: int| first_entry(prev, e.0, i);
            prev.update(i, prev.last()).drop_last().push((e.0, merge_v(prev[i].1, e.1)))
        } else {
            prev.push(e)
        }
    }
}

/// Recursive mapping merge in which `overlay` wins: two mappings merge
/// entry by entry, anything else yields `overlay`.
pub open spec fn merge_v(base: YamlV, overlay: YamlV) -> YamlV
    decreases overlay,
{
    match (base, overlay) {
        (YamlV::Mapping(b), YamlV::Mapping(o)) => {
            proof {
                assert(decreases_to!(overlay => o));
            }
            YamlV::Mapping(merge_entries(b, o))
        },
        _ => overlay,
    }
}

proof fn lemma_first_entry_unique(m: Seq<(YamlV, YamlV)>, k: YamlV, i: int, j: int)
    requires
        first_entry(m, k, i),
        first_entry(m, k, j),
    ensures
        i == j,
{
    if i < j {
        assert(m[i].0 != k);
    } else if j < i {
        assert(m[j].0 != k);
    }
}

/// Index of the first entry whose key equals `k`.
fn find_entry(m: &Vec<(Yaml, Yaml)>, k: &Yaml) -> (r: Option<usize>)
    ensures
        r matches Some(i) ==> first_entry(entries_v(m@), yv(*k), i as int),
        r is None ==> !exists|i: int| first_entry(entries_v(m@), yv(*k), i),
{
    let ghost ev = entries_v(m@);
    assert(ev.len() == m@.len());
    let mut i: usize = 0;
    while i < m.len()
        invariant
            i <= m@.len(),
            ev == entries_v(m@),
            ev.len() == m@.len(),
            forall|j: int| 0 <= j < i ==> (#[trigger] ev[j]).0 != yv(*k),
        decreases m@.len() - i,
    {
        assert(ev[i as int] == (yv(m@[i as int].0), yv(m@[i as int].1)));
        if yaml_eq(&m[i].0, k) {
            return Some(i);
        }
        i = i + 1;
    }
    proof {
        if exists|j: int| first_entry(ev, yv(*k), j) {
            let j = choose|j: int| first_entry(ev, yv(*k), j);
            assert(ev[j].0 != yv(*k));
        }
    }
    None
}

proof fn lemma_entries_v_swap_push(s: Seq<(Yaml, Yaml)>, i: int, p: (Yaml, Yaml))
    requires
        0 <= i < s.len(),
    ensures
        entries_v(s.update(i, s.last()).drop_last().push(p)) == entries_v(s).update(
            i,
            entries_v(s).last(),
        ).drop_last().push((yv(p.0), yv(p.1))),
{
    let t = s.update(i, s.last()).drop_last().push(p);
    let ev = entries_v(s);
    let et = ev.update(i, ev.last()).drop_last().push((yv(p.0), yv(p.1)));
    assert(entries_v(t).len() == et.len());
    assert forall|j: int| 0 <= j < et.len() implies entries_v(t)[j] == et[j] by {
        assert(entries_v(t)[j] == (yv(t[j].0), yv(t[j].1)));
        if j < s.len() - 1 {
            if j == i {
                assert(ev[s.len() - 1] == (yv(s[s.len() - 1].0), yv(s[s.len() - 1].1)));
            } else {
                assert(ev[j] == (yv(s[j].0), yv(s[j].1)));
            }
        }
    }
    assert(entries_v(t) =~= et);
}

pub(crate) proof fn lemma_entries_v_push(s: Seq<(Yaml, Yaml)>, p: (Yaml, Yaml))
    ensures
        entries_v(s.push(p)) == entries_v(s).push((yv(p.0), yv(p.1))),
{
    let t = s.push(p);
    let et = entries_v(s).push((yv(p.0), yv(p.1)));
    assert forall|j: int| 0 <= j < et.len() implies entries_v(t)[j] == et[j] by {
        assert(entries_v(t)[j] == (yv(t[j].0), yv(t[j].1)));
        if j < s.len() {
            assert(entries_v(s)[j] == (yv(s[j].0), yv(s[j].1)));
        }
    }
    assert(entries_v(t) =~= et);
}

proof fn lemma_entries_v_prefix(s: Seq<(Yaml, Yaml)>, j: int)
    requires
        0 <= j < s.len(),
    ensures
        entries_v(s.subrange(0, j + 1)).drop_last() == entries_v(s.subrange(0, j)),
        entries_v(s.subrange(0, j + 1)).last() == (yv(s[j].0), yv(s[j].1)),
{
    let a = entries_v(s.subrange(0, j + 1));
    let b = entries_v(s.subrange(0, j));
    assert forall|t: int| 0 <= t < j implies a.drop_last()[t] == b[t] by {
        assert(a[t] == (yv(s[t].0), yv(s[t].1)));
        assert(b[t] == (yv(s[t].0), yv(s[t].1)));
    }
    assert(a.drop_last() =~= b);
    assert(a[j] == (yv(s[j].0), yv(s[j].1)));
}

/// Recursive mapping merge in which `overlay` wins: when both values are
/// mappings, each overlay entry replaces (or, for two mappings, is merged
/// into) the base entry with the same key; otherwise `overlay` is the
/// result.
pub fn merge_yaml(base: Yaml, overlay: Yaml) -> (r: Yaml)
    ensures
        yv(r) == merge_v(yv(base), yv(overlay)),
        !(base is Mapping && overlay is Mapping) ==> r == overlay,
    decreases overlay,
{
    let ghost ov = overlay;
    match overlay {
        Yaml::Mapping(o) => match base {
            Yaml::Mapping(b) => {
                let ghost orig = o@;
                let ghost ovec = o;
                let ghost b0 = b@;
                let mut b = b;
                let mut o = o;
                let ghost mut j: int = 0;
                assert(orig.subrange(0, 0) =~= Seq::<(Yaml, Yaml)>::empty());
                assert(entries_v(orig.subrange(0, 0)) =~= Seq::<(YamlV, YamlV)>::empty());
                assert(o@ =~= orig.subrange(0, orig.len() as int));
                while o.len() > 0
                    invariant
                        0 <= j <= orig.len(),
                        o@ == orig.subrange(j, orig.len() as int),
                        ov == Yaml::Mapping(ovec),
                        ov == overlay,
                        ovec@ == orig,
                        entries_v(b@) == merge_entries(entries_v(b0), entries_v(orig.subrange(0, j))),
                    decreases o@.len(),
                {
                    let ghost prev = b@;
                    let (k, v) = o.remove(0);
                    assert(orig[j] == (k, v));
                    proof {
                        lemma_entries_v_prefix(orig, j);
                    }
                    match find_entry(&b, &k) {
                        Some(i) => {
                            let ghost ep = entries_v(prev);
                            assert(ep[i as int] == (yv(prev[i as int].0), yv(prev[i as int].1)));
                            let (_, old) = b.swap_remove(i);
                            proof {
                                assert(decreases_to!(ov => ov->Mapping_0));
                                assert(ov->Mapping_0 == ovec);
                                assert(decreases_to!(ovec => orig));
                                assert(decreases_to!(orig => orig[j]));
                                assert(decreases_to!(orig[j] => orig[j].1));
                                assert(decreases_to!(ov => v));
                            }
                            let m = merge_yaml(old, v);
                            b.push((k, m));
                            proof {
                                lemma_entries_v_swap_push(prev, i as int, (k, m));
                                let c = choose|t: int| first_entry(ep, yv(k), t);
                                lemma_first_entry_unique(ep, yv(k), i as int, c);
                            }
                        },
                        None => {
                            b.push((k, v));
                            proof {
                                lemma_entries_v_push(prev, (k, v));
                            }
                        },
                    }
                    proof {
                        j = j + 1;
                    }
                    assert(o@ =~= orig.subrange(j, orig.len() as int));
                }
                assert(orig.subrange(0, j) =~= orig);
                Yaml::Mapping(b)
            },
            _ => Yaml::Mapping(o),
        },
        other => other,
    }
}

/// No two entries share a key.
pub open spec fn keys_unique(m: Seq<(YamlV, YamlV)>) -> bool {
    forall|i: int, j: int| 0 <= i < j < m.len() ==> (#[trigger] m[i]).0 != (#[trigger] m[j]).0
}

/// `m` has an entry with key `k` at index `i`.
pub open spec fn has_key_at(m: Seq<(YamlV, YamlV)>, k: YamlV, i: int) -> bool {
    0 <= i < m.len() && m[i].0 == k
}

/// Value stored under key `k`.
pub open spec fn lookup(m: Seq<(YamlV, YamlV)>, k: YamlV) -> Option<YamlV> {
    if exists|i: int| has_key_at(m, k, i) {
        Some(m[choose|i: int| has_key_at(m, k, i)].1)
    } else {
        None
    }
}

/// What a key maps to once an overlay entry was laid over a base entry.
pub open spec fn overlaid(b: Option<YamlV>, o: Option<YamlV>) -> Option<YamlV> {
    match (b, o) {
        (Some(x), Some(y)) => Some(merge_v(x, y)),
        (None, Some(y)) => Some(y),
        (x, None) => x,
    }
}

proof fn lemma_lookup_at(m: Seq<(YamlV, YamlV)>, i: int)
    requires
        keys_unique(m),
        0 <= i < m.len(),
    ensures
        lookup(m, m[i].0) == Some(m[i].1),
{
    assert(has_key_at(m, m[i].0, i));
    let c = choose|t: int| has_key_at(m, m[i].0, t);
    if c != i {
        if c < i {
            assert(m[c].0 != m[i].0);
        } else {
            assert(m[i].0 != m[c].0);
        }
    }
}

proof fn lemma_merge_entries(b: Seq<(YamlV, YamlV)>, o: Seq<(YamlV, YamlV)>)
    requires
        keys_unique(b),
        keys_unique(o),
    ensures
        keys_unique(merge_entries(b, o)),
        forall|k: YamlV| #[trigger] lookup(merge_entries(b, o), k) == overlaid(lookup(b, k), lookup(o, k)),
    decreases o.len(),
{
    if o.len() == 0 {
        assert forall|k: YamlV| #[trigger] lookup(merge_entries(b, o), k) == overlaid(lookup(b, k), lookup(o, k)) by {
            assert(!exists|i: int| has_key_at(o, k, i));
        }
    } else {
        let o1 = o.drop_last();
        let e = o.last();
        let n = o.len();
        assert forall|i: int, j: int| 0 <= i < j < o1.len() implies (#[trigger] o1[i]).0 != (#[trigger] o1[j]).0 by {
            assert(o1[i] == o[i] && o1[j] == o[j]);
        }
        lemma_merge_entries(b, o1);
        let prev = merge_entries(b, o1);
        // the overlay key of the last entry is new to the earlier overlay entries
        assert forall|i: int| 0 <= i < o1.len() implies (#[trigger] o1[i]).0 != e.0 by {
            assert(o[i] == o1[i]);
            assert(o[n - 1] == e);
        }
        assert(lookup(o1, e.0) is None) by {
            if exists|i: int| has_key_at(o1, e.0, i) {
                let i = choose|i: int| has_key_at(o1, e.0, i);
                assert(o1[i].0 != e.0);
            }
        }
        assert(lookup(prev, e.0) == lookup(b, e.0));
        // lookups in the overlay
        assert(lookup(o, e.0) == Some(e.1)) by {
            lemma_lookup_at(o, n - 1);
        }
        assert forall|k: YamlV| k != e.0 implies #[trigger] lookup(o, k) == lookup(o1, k) by {
            if exists|i: int| has_key_at(o, k, i) {
                let i = choose|i: int| has_key_at(o, k, i);
                assert(i < n - 1);
                assert(has_key_at(o1, k, i));
                lemma_lookup_at(o, i);
                lemma_lookup_at(o1, i);
            } else {
                if exists|i: int| has_key_at(o1, k, i) {
                    let i = choose|i: int| has_key_at(o1, k, i);
                    assert(has_key_at(o, k, i));
                }
            }
        }
        let r = merge_entries(b, o);
        if exists|i: int| first_entry(prev, e.0, i) {
            let i = choose|i: int| first_entry(prev, e.0, i);
            let l = prev.len();
            let mid = prev.update(i, prev.last()).drop_last();
            let x = prev[i].1;
            assert(r == mid.push((e.0, merge_v(x, e.1))));
            assert(mid.len() == l - 1);
            assert forall|t: int| 0 <= t < l - 1 implies #[trigger] mid[t] == (if t == i { prev[l - 1] } else {
                prev[t]
            }) by {}
            // no entry of `mid` carries the key `e.0`
            assert forall|t: int| 0 <= t < l - 1 implies (#[trigger] mid[t]).0 != e.0 by {
                if t == i {
                    assert(prev[i].0 == e.0);
                    if i != l - 1 {
                        assert(prev[i].0 != prev[l - 1].0);
                    }
                } else {
                    if t < i {
                        assert(prev[t].0 != prev[i].0);
                    } else {
                        assert(prev[i].0 != prev[t].0);
                    }
                }
            }
            assert forall|s: int, t: int| 0 <= s < t < r.len() implies (#[trigger] r[s]).0 != (#[trigger] r[t]).0 by {
                if t == l - 1 {
                    assert(r[t].0 == e.0);
                    assert(r[s] == mid[s]);
                } else {
                    assert(r[s] == mid[s] && r[t] == mid[t]);
                    let ps = if s == i { l - 1 } else { s };
                    let pt = if t == i { l - 1 } else { t };
                    assert(mid[s] == prev[ps] && mid[t] == prev[pt]);
                    assert(ps != pt);
                    if ps < pt {
                        assert(prev[ps].0 != prev[pt].0);
                    } else {
                        assert(prev[pt].0 != prev[ps].0);
                    }
                }
            }
            assert(lookup(prev, e.0) == Some(x)) by {
                lemma_lookup_at(prev, i);
            }
            assert(lookup(r, e.0) == Some(merge_v(x, e.1))) by {
                lemma_lookup_at(r, l - 1);
            }
            assert forall|k: YamlV| #[trigger] lookup(r, k) == overlaid(lookup(b, k), lookup(o, k)) by {
                if k == e.0 {
                    assert(lookup(b, k) == Some(x));
                } else {
                    assert(lookup(o, k) == lookup(o1, k));
                    assert(lookup(prev, k) == overlaid(lookup(b, k), lookup(o1, k)));
                    if exists|t: int| has_key_at(prev, k, t) {
                        let t = choose|t: int| has_key_at(prev, k, t);
                        assert(t != i);
                        let rt = if t == l - 1 { i } else { t };
                        assert(r[rt] == mid[rt]);
                        assert(mid[rt] == prev[t]);
                        lemma_lookup_at(prev, t);
                        lemma_lookup_at(r, rt);
                    } else {
                        if exists|t: int| has_key_at(r, k, t) {
                            let t = choose|t: int| has_key_at(r, k, t);
                            assert(t < l - 1);
                            let pt = if t == i { l - 1 } else { t };
                            assert(r[t] == mid[t] && mid[t] == prev[pt]);
                            assert(has_key_at(prev, k, pt));
                        }
                    }
                }
            }
        } else {
            assert(r == prev.push(e));
            assert forall|t: int| 0 <= t < prev.len() implies (#[trigger] prev[t]).0 != e.0 by {
                if prev[t].0 == e.0 {
                    assert forall|j: int| 0 <= j < t implies (#[trigger] prev[j]).0 != e.0 by {
                        assert(prev[j].0 != prev[t].0);
                    }
                    assert(first_entry(prev, e.0, t));
                }
            }
            assert forall|s: int, t: int| 0 <= s < t < r.len() implies (#[trigger] r[s]).0 != (#[trigger] r[t]).0 by {
                if t == prev.len() {
                    assert(r[s] == prev[s]);
                } else {
                    assert(r[s] == prev[s] && r[t] == prev[t]);
                }
            }
            assert(lookup(prev, e.0) is None) by {
                if exists|t: int| has_key_at(prev, e.0, t) {
                    let t = choose|t: int| has_key_at(prev, e.0, t);
                    assert(prev[t].0 != e.0);
                }
            }
            assert(lookup(r, e.0) == Some(e.1)) by {
                lemma_lookup_at(r, prev.len() as int);
            }
            assert forall|k: YamlV| #[trigger] lookup(r, k) == overlaid(lookup(b, k), lookup(o, k)) by {
                if k == e.0 {
                    assert(lookup(b, k) is None);
                } else {
                    assert(lookup(o, k) == lookup(o1, k));
                    assert(lookup(prev, k) == overlaid(lookup(b, k), lookup(o1, k)));
                    if exists|t: int| has_key_at(prev, k, t) {
                        let t = choose|t: int| has_key_at(prev, k, t);
                        assert(r[t] == prev[t]);
                        lemma_lookup_at(prev, t);
                        lemma_lookup_at(r, t);
                    } else {
                        if exists|t: int| has_key_at(r, k, t) {
                            let t = choose|t: int| has_key_at(r, k, t);
                            assert(t < prev.len());
                            assert(r[t] == prev[t]);
                            assert(has_key_at(prev, k, t));
                        }
                    }
                }
            }
        }
    }
}

/// The overlay wins: merging two mappings whose keys are each unique (as
/// every mapping of a parsed document's are) gives
/// a mapping with unique keys in which every key maps to the base value
/// when only the base has it, to the overlay value when only the overlay
/// has it, and to the merge of both values when both have it.
pub proof fn lemma_merge_overlay_wins(base: YamlV, overlay: YamlV, k: YamlV)
    requires
        base matches YamlV::Mapping(b) && keys_unique(b),
        overlay matches YamlV::Mapping(o) && keys_unique(o),
    ensures
        merge_v(base, overlay) matches YamlV::Mapping(r) && keys_unique(r) && lookup(r, k) == overlaid(
            lookup(base->Mapping_0, k),
            lookup(overlay->Mapping_0, k),
        ),
{
    lemma_merge_entries(base->Mapping_0, overlay->Mapping_0);
}

/// Anything but two mappings merges to the overlay itself.
pub proof fn lemma_merge_replaces_non_mappings(base: YamlV, overlay: YamlV)
    requires
        !(base is Mapping && overlay is Mapping),
    ensures
        merge_v(base, overlay) == overlay,
{
}

/// Laying an empty mapping over a mapping leaves it as it is, entry order
/// included.
pub proof fn lemma_merge_empty_overlay(m: Seq<(YamlV, YamlV)>)
    ensures
        merge_v(YamlV::Mapping(m), YamlV::Mapping(Seq::empty())) == YamlV::Mapping(m),
{
    assert(merge_entries(m, Seq::empty()) == m);
}

/// Every mapping in `v`, at any depth below mappings, has each key once,
/// as the mappings of a parsed document do.
pub open spec fn deep_unique(v: YamlV) -> bool
    decreases v,
{
    match v {
        YamlV::Mapping(m) => keys_unique(m) && forall|i: int|
            0 <= i < m.len() ==> {
                proof {
                    assert(decreases_to!(v => m));
                    assert(decreases_to!(m => m[i]));
                    assert(decreases_to!(m[i] => m[i].1));
                }
                deep_unique(#[trigger] m[i].1)
            },
        _ => true,
    }
}

/// `a` and `b` are the same value up to the order of mapping entries: the
/// equality of parsed documents, whose mappings compare entry by entry
/// whatever their order. (Merging reorders entries: a key met again is
/// moved to the end, so `merge(x, x)` of a mapping with keys `a, b, c`
/// lists them as `b, a, c`.)
pub open spec fn same_value(a: YamlV, b: YamlV) -> bool
    decreases a,
{
    match (a, b) {
        (YamlV::Mapping(ma), YamlV::Mapping(mb)) => (forall|j: int|
            0 <= j < mb.len() ==> lookup(ma, (#[trigger] mb[j]).0) is Some) && forall|i: int|
            0 <= i < ma.len() ==> {
                proof {
                    assert(decreases_to!(a => ma));
                    assert(decreases_to!(ma => ma[i]));
                    assert(decreases_to!(ma[i] => ma[i].1));
                }
                lookup(mb, (#[trigger] ma[i]).0) matches Some(y) && same_value(ma[i].1, y)
            },
        _ => a == b,
    }
}

/// Merging a document with itself gives the same document: where every
/// mapping has each key once, `merge(x, x)` is `x` up to the order of
/// mapping entries.
pub proof fn lemma_merge_with_itself(x: YamlV)
    requires
        deep_unique(x),
    ensures
        same_value(merge_v(x, x), x),
    decreases x,
{
    match x {
        YamlV::Mapping(m) => {
            lemma_merge_entries(m, m);
            let r = merge_entries(m, m);
            assert(merge_v(x, x) == YamlV::Mapping(r));
            assert forall|j: int| 0 <= j < m.len() implies lookup(r, (#[trigger] m[j]).0) is Some by {
                lemma_lookup_at(m, j);
                assert(lookup(r, m[j].0) == overlaid(lookup(m, m[j].0), lookup(m, m[j].0)));
            }
            assert forall|i: int| 0 <= i < r.len() implies lookup(m, (#[trigger] r[i]).0) matches Some(y)
                && same_value(r[i].1, y) by {
                let k = r[i].0;
                lemma_lookup_at(r, i);
                assert(lookup(r, k) == overlaid(lookup(m, k), lookup(m, k)));
                let j = choose|j: int| has_key_at(m, k, j);
                lemma_lookup_at(m, j);
                let y = m[j].1;
                assert(lookup(m, k) == Some(y));
                assert(deep_unique(m[j].1));
                assert(decreases_to!(x => m));
                assert(decreases_to!(m => m[j]));
                assert(decreases_to!(m[j] => m[j].1));
                lemma_merge_with_itself(y);
            }
        },
        _ => {},
    }
}

} // verus!
