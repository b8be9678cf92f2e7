//! Saving the configuration window's choices into `config.yaml`: the
//! document keeps everything else, and each setting is written the way
//! `value[key] = ..` writes it (a null section becomes a mapping, an
//! existing key keeps its place, a new key is appended).

use vstd::prelude::*;
use vstd::string::StringExecFns;
use crate::catalog::{revision_keyword, revision_str};
use crate::config::Revision;
use crate::yaml::{entries_v, first_entry, lemma_entries_v_push, yv, Yaml, YamlNumber, YamlNumberV, YamlV};
use crate::text::str_eq;

verus! {

/// A mapping, possibly under tags.
pub open spec fn mapping_under_tags(v: YamlV) -> bool
    decreases v,
{
    match v {
        YamlV::Mapping(_) => true,
        YamlV::Tagged(_, b) => mapping_under_tags(*b),
        _ => false,
    }
}

/// `v[key] = ..` can be written: `v` is null or a mapping under tags
/// (anything else makes the write panic).
pub open spec fn assignable(v: YamlV) -> bool {
    v == YamlV::Null || mapping_under_tags(v)
}

/// Entries `m` with key `k` set to `val`: the first entry with that key
/// takes the value, else the entry is appended.
pub open spec fn put(m: Seq<(YamlV, YamlV)>, k: YamlV, val: YamlV) -> Seq<(YamlV, YamlV)> {
    if exists|i: int| first_entry(m, k, i) {
        let i = choose|i: int| first_entry(m, k, i);
        m.update(i, (m[i].0, val))
    } else {
        m.push((k, val))
    }
}

/// Key `key` of the mapping under the tags of `v` set to `val`.
pub open spec fn assign_in(v: YamlV, key: Seq<char>, val: YamlV) -> YamlV
    decreases v,
{
    match v {
        YamlV::Mapping(m) => YamlV::Mapping(put(m, YamlV::String(key), val)),
        YamlV::Tagged(t, b) => YamlV::Tagged(t, Box::new(assign_in(*b, key, val))),
        _ => v,
    }
}

/// `v[key] = val`: a null becomes a one-entry mapping.
pub open spec fn assign_v(v: YamlV, key: Seq<char>, val: YamlV) -> YamlV {
    if v == YamlV::Null {
        YamlV::Mapping(seq![(YamlV::String(key), val)])
    } else {
        assign_in(v, key, val)
    }
}

/// The settings `kv` written into `v` in order.
pub open spec fn assign_all(v: YamlV, kv: Seq<(Seq<char>, YamlV)>) -> YamlV
    decreases kv.len(),
{
    if kv.len() == 0 {
        v
    } else {
        let p = assign_all(v, kv.drop_last());
        assign_v(p, kv.last().0, kv.last().1)
    }
}

proof fn lemma_assign_in_keeps_mapping(v: YamlV, key: Seq<char>, val: YamlV)
    requires
        mapping_under_tags(v),
    ensures
        mapping_under_tags(assign_in(v, key, val)),
    decreases v,
{
    match v {
        YamlV::Tagged(t, b) => {
            lemma_assign_in_keeps_mapping(*b, key, val);
        },
        _ => {},
    }
}

proof fn lemma_assign_keeps_mapping(v: YamlV, key: Seq<char>, val: YamlV)
    requires
        assignable(v),
    ensures
        mapping_under_tags(assign_v(v, key, val)),
{
    if v != YamlV::Null {
        lemma_assign_in_keeps_mapping(v, key, val);
    }
}

proof fn lemma_entries_v_update(s: Seq<(Yaml, Yaml)>, i: int, p: (Yaml, Yaml))
    requires
        0 <= i < s.len(),
    ensures
        entries_v(s.update(i, p)) == entries_v(s).update(i, (yv(p.0), yv(p.1))),
{
    let t = s.update(i, p);
    let et = entries_v(s).update(i, (yv(p.0), yv(p.1)));
    assert forall|j: int| 0 <= j < et.len() implies entries_v(t)[j] == et[j] by {
        assert(entries_v(t)[j] == (yv(t[j].0), yv(t[j].1)));
        if j != i {
            assert(entries_v(s)[j] == (yv(s[j].0), yv(s[j].1)));
        }
    }
    assert(entries_v(t) =~= et);
}

/// Index of the first entry of `m` whose key is the string `key`.
fn find_key(m: &Vec<(Yaml, Yaml)>, key: &str) -> (r: Option<usize>)
    ensures
        r matches Some(i) ==> first_entry(entries_v(m@), YamlV::String(key@), i as int),
        r is None ==> !exists|i: int| first_entry(entries_v(m@), YamlV::String(key@), i),
{
    let ghost ev = entries_v(m@);
    let ghost k = YamlV::String(key@);
    let mut i: usize = 0;
    while i < m.len()
        invariant
            i <= m@.len(),
            ev == entries_v(m@),
            ev.len() == m@.len(),
            k == YamlV::String(key@),
            forall|j: int| 0 <= j < i ==> (#[trigger] ev[j]).0 != k,
        decreases m@.len() - i,
    {
        assert(ev[i as int] == (yv(m@[i as int].0), yv(m@[i as int].1)));
        let hit = match &m[i].0 {
            Yaml::String(s) => str_eq(s.as_str(), key),
            _ => false,
        };
        if hit {
            assert(first_entry(ev, k, i as int));
            return Some(i);
        }
        i = i + 1;
    }
    None
}

proof fn lemma_first_entry_unique(m: Seq<(YamlV, YamlV)>, k: YamlV, i: int, j: int)
    requires
        first_entry(m, k, i),
        first_entry(m, k, j),
    ensures
        i == j,
{
    if i < j {
        assert(m[i].0 != k);
    } else if j < i {
        assert(m[j].0 != k);
    }
}

/// Entries with the string key `key` set to `val`.
fn put_entry(m: Vec<(Yaml, Yaml)>, key: &str, val: Yaml) -> (r: Vec<(Yaml, Yaml)>)
    ensures
        entries_v(r@) == put(entries_v(m@), YamlV::String(key@), yv(val)),
{
    let mut m = m;
    let ghost ev = entries_v(m@);
    let ghost k = YamlV::String(key@);
    match find_key(&m, key) {
        Some(i) => {
            let ghost old = m@;
            let entry = (Yaml::String(String::from_str(key)), val);
            let ghost ge = entry;
            m.set(i, entry);
            proof {
                lemma_entries_v_update(old, i as int, ge);
                let c = choose|j: int| first_entry(ev, k, j);
                lemma_first_entry_unique(ev, k, i as int, c);
                assert(ev[i as int].0 == k);
            }
            m
        },
        None => {
            let ghost old = m@;
            let entry = (Yaml::String(String::from_str(key)), val);
            let ghost ge = entry;
            m.push(entry);
            proof {
                lemma_entries_v_push(old, ge);
            }
            m
        },
    }
}

/// Key `key` of the mapping under the tags of `v` set to `val`.
fn assign_inner(v: Yaml, key: &str, val: Yaml) -> (r: Yaml)
    requires
        mapping_under_tags(yv(v)),
    ensures
        yv(r) == assign_in(yv(v), key@, yv(val)),
    decreases v,
{
    match v {
        Yaml::Mapping(m) => {
            let ghost mv = m@;
            let r = put_entry(m, key, val);
            Yaml::Mapping(r)
        },
        Yaml::Tagged(t, b) => {
            let inner = assign_inner(*b, key, val);
            Yaml::Tagged(t, Box::new(inner))
        },
        other => other,
    }
}

/// `v[key] = val`.
fn assign(v: Yaml, key: &str, val: Yaml) -> (r: Yaml)
    requires
        assignable(yv(v)),
    ensures
        yv(r) == assign_v(yv(v), key@, yv(val)),
{
    match v {
        Yaml::Null => {
            let mut m: Vec<(Yaml, Yaml)> = Vec::new();
            let entry = (Yaml::String(String::from_str(key)), val);
            let ghost ge = entry;
            m.push(entry);
            proof {
                lemma_entries_v_push(Seq::empty(), ge);
                assert(Seq::<(Yaml, Yaml)>::empty().push(ge) =~= m@);
                assert(entries_v(Seq::<(Yaml, Yaml)>::empty()) =~= Seq::<(YamlV, YamlV)>::empty());
                assert(entries_v(m@) =~= seq![(YamlV::String(key@), yv(val))]);
            }
            Yaml::Mapping(m)
        },
        other => assign_inner(other, key, val),
    }
}

/// Views of settings to write.
pub open spec fn settings_v(kv: Seq<(String, Yaml)>) -> Seq<(Seq<char>, YamlV)> {
    Seq::new(kv.len(), |i: int| (kv[i].0@, yv(kv[i].1)))
}

/// The settings `kv` written into `v` in order.
fn assign_each(v: Yaml, kv: Vec<(String, Yaml)>) -> (r: Yaml)
    requires
        assignable(yv(v)),
    ensures
        yv(r) == assign_all(yv(v), settings_v(kv@)),
{
    let ghost v0 = yv(v);
    let ghost all = kv@;
    let mut cur = v;
    let mut rest = kv;
    let ghost mut j: int = 0;
    assert(settings_v(all.subrange(0, 0)) =~= Seq::<(Seq<char>, YamlV)>::empty());
    assert(rest@ =~= all.subrange(0, all.len() as int));
    while rest.len() > 0
        invariant
            0 <= j <= all.len(),
            rest@ == all.subrange(j, all.len() as int),
            yv(cur) == assign_all(v0, settings_v(all.subrange(0, j))),
            j == 0 ==> yv(cur) == v0,
            assignable(v0),
            j > 0 ==> mapping_under_tags(yv(cur)),
        decreases rest@.len(),
    {
        let (k, val) = rest.remove(0);
        assert(all[j] == (k, val));
        let ghost before = yv(cur);
        proof {
            lemma_assign_keeps_mapping(before, k@, yv(val));
            let pre = settings_v(all.subrange(0, j + 1));
            assert(pre.drop_last() =~= settings_v(all.subrange(0, j)));
            assert(pre.last() == (k@, yv(val)));
        }
        cur = assign(cur, k.as_str(), val);
        proof {
            j = j + 1;
        }
        assert(rest@ =~= all.subrange(j, all.len() as int));
    }
    assert(all.subrange(0, j) =~= all);
    cur
}

/// `doc`, under its tags, has section `name` null or a mapping when it
/// has one, so that its keys can be written.
pub open spec fn section_ok(doc: YamlV, name: Seq<char>) -> bool
    decreases doc,
{
    match doc {
        YamlV::Tagged(_, b) => section_ok(*b, name),
        YamlV::Mapping(m) => entry_ok(m, name),
        _ => true,
    }
}

/// The section `name` of entries `m`, when present, is null or a mapping.
pub open spec fn entry_ok(m: Seq<(YamlV, YamlV)>, name: Seq<char>) -> bool {
    forall|i: int| first_entry(m, YamlV::String(name), i) ==> assignable(#[trigger] m[i].1)
}

/// `doc` with the settings `kv` written into its section `name` (under
/// the document's tags), when it has that section.
pub open spec fn update_section_v(doc: YamlV, name: Seq<char>, kv: Seq<(Seq<char>, YamlV)>) -> YamlV
    decreases doc,
{
    match doc {
        YamlV::Tagged(t, b) => YamlV::Tagged(t, Box::new(update_section_v(*b, name, kv))),
        YamlV::Mapping(m) => if exists|i: int| first_entry(m, YamlV::String(name), i) {
            let i = choose|i: int| first_entry(m, YamlV::String(name), i);
            YamlV::Mapping(m.update(i, (m[i].0, assign_all(m[i].1, kv))))
        } else {
            doc
        },
        _ => doc,
    }
}

/// Writes the settings `kv` into section `name` of `doc`.
fn update_section(doc: Yaml, name: &str, kv: Vec<(String, Yaml)>) -> (r: Yaml)
    requires
        section_ok(yv(doc), name@),
    ensures
        yv(r) == update_section_v(yv(doc), name@, settings_v(kv@)),
    decreases doc,
{
    match doc {
        Yaml::Tagged(t, b) => {
            let inner = update_section(*b, name, kv);
            Yaml::Tagged(t, Box::new(inner))
        },
        Yaml::Mapping(m) => {
            let mut m = m;
            let ghost ev = entries_v(m@);
            let ghost k = YamlV::String(name@);
            match find_key(&m, name) {
                Some(i) => {
                    let ghost old = m@;
                    let (key, section) = m.remove(i);
                    assert(old[i as int] == (key, section));
                    assert(ev[i as int] == (yv(key), yv(section)));
                    proof {
                        let c = choose|j: int| first_entry(ev, k, j);
                        lemma_first_entry_unique(ev, k, i as int, c);
                    }
                    let updated = assign_each(section, kv);
                    let entry = (key, updated);
                    let ghost ge = entry;
                    m.insert(i, entry);
                    assert(m@ =~= old.update(i as int, ge));
                    proof {
                        lemma_entries_v_update(old, i as int, ge);
                    }
                    Yaml::Mapping(m)
                },
                None => Yaml::Mapping(m),
            }
        },
        other => other,
    }
}

/// The settings of the configuration window as written to `config.yaml`.
pub open spec fn saved_settings_v(
    doc: YamlV,
    theme: Seq<char>,
    com_port: Seq<char>,
    rev: Revision,
    brightness: u8,
    reverse: bool,
) -> YamlV {
    let config = seq![("THEME"@, YamlV::String(theme)), ("COM_PORT"@, YamlV::String(com_port))];
    let display = seq![
        ("REVISION"@, YamlV::String(revision_keyword(rev))),
        ("BRIGHTNESS"@, YamlV::Number(YamlNumberV::PosInt(brightness as u64))),
        ("DISPLAY_REVERSE"@, YamlV::Bool(reverse)),
    ];
    update_section_v(update_section_v(doc, "config"@, config), "display"@, display)
}

/// Both sections the window writes can be written.
pub open spec fn settings_writable(doc: YamlV) -> bool {
    section_ok(doc, "config"@) && section_ok(doc, "display"@)
}

proof fn lemma_other_section_stays_ok(doc: YamlV, kv: Seq<(Seq<char>, YamlV)>)
    requires
        section_ok(doc, "display"@),
    ensures
        section_ok(update_section_v(doc, "config"@, kv), "display"@),
    decreases doc,
{
    reveal_strlit("config");
    reveal_strlit("display");
    match doc {
        YamlV::Tagged(t, b) => {
            lemma_other_section_stays_ok(*b, kv);
        },
        YamlV::Mapping(m) => {
            let kc = YamlV::String("config"@);
            let kd = YamlV::String("display"@);
            assert("config"@.len() != "display"@.len());
            assert(kc != kd);
            if exists|i: int| first_entry(m, kc, i) {
                let i = choose|i: int| first_entry(m, kc, i);
                let m2 = m.update(i, (m[i].0, assign_all(m[i].1, kv)));
                assert forall|j: int| first_entry(m2, kd, j) implies assignable(#[trigger] m2[j].1) by {
                    assert forall|l: int| 0 <= l < j implies (#[trigger] m[l]).0 != kd by {
                        assert(m2[l].0 == m[l].0);
                    }
                    assert(m2[j].0 == m[j].0);
                    assert(first_entry(m, kd, j));
                    assert(j != i);
                }
                assert(update_section_v(doc, "config"@, kv) == YamlV::Mapping(m2));
            }
        },
        _ => {},
    }
}

fn is_mapping_under_tags(v: &Yaml) -> (b: bool)
    ensures
        b == mapping_under_tags(yv(*v)),
    decreases v,
{
    match v {
        Yaml::Mapping(_) => true,
        Yaml::Tagged(_, b) => is_mapping_under_tags(b),
        _ => false,
    }
}

fn section_writable(doc: &Yaml, name: &str) -> (b: bool)
    ensures
        b == section_ok(yv(*doc), name@),
    decreases doc,
{
    match doc {
        Yaml::Tagged(t, inner) => {
            let r = section_writable(inner, name);
            assert(yv(*doc) == YamlV::Tagged(t@, Box::new(yv(**inner))));
            r
        },
        Yaml::Mapping(m) => {
            let ghost ev = entries_v(m@);
            let ghost k = YamlV::String(name@);
            assert(yv(*doc) == YamlV::Mapping(ev));
            match find_key(m, name) {
                Some(i) => {
                    assert(ev[i as int] == (yv(m@[i as int].0), yv(m@[i as int].1)));
                    let v = &m[i].1;
                    let ok = match v {
                        Yaml::Null => true,
                        _ => is_mapping_under_tags(v),
                    };
                    proof {
                        assert(yv(*v) == YamlV::Null <==> *v is Null);
                        assert(ok == assignable(ev[i as int].1));
                        if ok {
                            assert forall|j: int| first_entry(ev, k, j) implies assignable(#[trigger] ev[j].1) by {
                                lemma_first_entry_unique(ev, k, i as int, j);
                            }
                        } else {
                            assert(first_entry(ev, k, i as int));
                            assert(!assignable(ev[i as int].1));
                        }
                    }
                    ok
                },
                None => true,
            }
        },
        _ => true,
    }
}

/// Whether the window's settings can be written into `doc`: its `config`
/// and `display` sections, where present, are null or mappings.
pub fn settings_can_be_saved(doc: &Yaml) -> (b: bool)
    ensures
        b == settings_writable(yv(*doc)),
{
    section_writable(doc, "config") && section_writable(doc, "display")
}

/// Writes the configuration window's settings into the `config.yaml`
/// document: `THEME` and `COM_PORT` into `config`, `REVISION`,
/// `BRIGHTNESS` and `DISPLAY_REVERSE` into `display` (sections that are
/// missing stay missing).
pub fn save_settings(doc: Yaml, theme: &str, com_port: &str, rev: Revision, brightness: u8, reverse: bool) -> (r: Yaml)
    requires
        settings_writable(yv(doc)),
    ensures
        yv(r) == saved_settings_v(yv(doc), theme@, com_port@, rev, brightness, reverse),
{
    let mut config: Vec<(String, Yaml)> = Vec::new();
    config.push((String::from_str("THEME"), Yaml::String(String::from_str(theme))));
    config.push((String::from_str("COM_PORT"), Yaml::String(String::from_str(com_port))));
    let ghost cv = seq![("THEME"@, YamlV::String(theme@)), ("COM_PORT"@, YamlV::String(com_port@))];
    assert(settings_v(config@) =~= cv);
    let ghost d0 = yv(doc);
    let doc1 = update_section(doc, "config", config);
    proof {
        lemma_other_section_stays_ok(d0, cv);
    }
    let mut display: Vec<(String, Yaml)> = Vec::new();
    display.push((String::from_str("REVISION"), Yaml::String(String::from_str(revision_str(rev)))));
    display.push((String::from_str("BRIGHTNESS"), Yaml::Number(YamlNumber::PosInt(brightness as u64))));
    display.push((String::from_str("DISPLAY_REVERSE"), Yaml::Bool(reverse)));
    let ghost dv = seq![
        ("REVISION"@, YamlV::String(revision_keyword(rev))),
        ("BRIGHTNESS"@, YamlV::Number(YamlNumberV::PosInt(brightness as u64))),
        ("DISPLAY_REVERSE"@, YamlV::Bool(reverse)),
    ];
    assert(settings_v(display@) =~= dv);
    update_section(doc1, "display", display)
}

proof fn lemma_update_keeps_others(m: Seq<(YamlV, YamlV)>, name: Seq<char>, kv: Seq<(Seq<char>, YamlV)>)
    ensures
        update_section_v(YamlV::Mapping(m), name, kv) matches YamlV::Mapping(r) && r.len() == m.len() && (forall|j: int|
            0 <= j < m.len() ==> (#[trigger] r[j]).0 == m[j].0 && (m[j].0 != YamlV::String(name) ==> r[j].1
                == m[j].1)),
{
    if exists|i: int| first_entry(m, YamlV::String(name), i) {
        let i = choose|i: int| first_entry(m, YamlV::String(name), i);
        let r = m.update(i, (m[i].0, assign_all(m[i].1, kv)));
        assert forall|j: int| 0 <= j < m.len() implies (#[trigger] r[j]).0 == m[j].0 && (m[j].0 != YamlV::String(
            name,
        ) ==> r[j].1 == m[j].1) by {
            if j == i {
                assert(m[i].0 == YamlV::String(name));
            }
        }
    }
}

/// Saving the window's settings into a mapping document keeps the rest of
/// it: the top-level entries keep their keys and their order, and every
/// entry other than the `config` and `display` sections keeps its value.
pub proof fn lemma_save_keeps_other_entries(
    m: Seq<(YamlV, YamlV)>,
    theme: Seq<char>,
    com_port: Seq<char>,
    rev: Revision,
    brightness: u8,
    reverse: bool,
)
    ensures
        saved_settings_v(YamlV::Mapping(m), theme, com_port, rev, brightness, reverse) matches YamlV::Mapping(r)
            && r.len() == m.len() && (forall|j: int|
            0 <= j < m.len() ==> (#[trigger] r[j]).0 == m[j].0 && (m[j].0 != YamlV::String("config"@) && m[j].0
                != YamlV::String("display"@) ==> r[j].1 == m[j].1)),
{
    let config = seq![("THEME"@, YamlV::String(theme)), ("COM_PORT"@, YamlV::String(com_port))];
    let display = seq![
        ("REVISION"@, YamlV::String(revision_keyword(rev))),
        ("BRIGHTNESS"@, YamlV::Number(YamlNumberV::PosInt(brightness as u64))),
        ("DISPLAY_REVERSE"@, YamlV::Bool(reverse)),
    ];
    lemma_update_keeps_others(m, "config"@, config);
    let d1 = update_section_v(YamlV::Mapping(m), "config"@, config);
    let m1 = d1->Mapping_0;
    lemma_update_keeps_others(m1, "display"@, display);
    let r = update_section_v(d1, "display"@, display)->Mapping_0;
    assert forall|j: int| 0 <= j < m.len() implies (#[trigger] r[j]).0 == m[j].0 && (m[j].0 != YamlV::String(
        "config"@,
    ) && m[j].0 != YamlV::String("display"@) ==> r[j].1 == m[j].1) by {
        assert(m1[j].0 == m[j].0);
        assert(r[j].0 == m1[j].0);
    }
}

/// Value of the first entry with key `k` of `m`.
pub open spec fn value_at(m: Seq<(YamlV, YamlV)>, k: YamlV) -> Option<YamlV> {
    if exists|i: int| first_entry(m, k, i) {
        Some(m[choose|i: int| first_entry(m, k, i)].1)
    } else {
        None
    }
}

/// Value under the string key `key` of the mapping under the tags of `v`
/// (what reading `v[key]` gives).
pub open spec fn entry_of(v: YamlV, key: Seq<char>) -> Option<YamlV>
    decreases v,
{
    match v {
        YamlV::Tagged(_, b) => entry_of(*b, key),
        YamlV::Mapping(m) => value_at(m, YamlV::String(key)),
        _ => None,
    }
}

proof fn lemma_key_has_first(m: Seq<(YamlV, YamlV)>, k: YamlV, l: int)
    requires
        0 <= l < m.len(),
        m[l].0 == k,
    ensures
        exists|i: int| first_entry(m, k, i),
    decreases l,
{
    if exists|j: int| 0 <= j < l && m[j].0 == k {
        let j = choose|j: int| 0 <= j < l && m[j].0 == k;
        lemma_key_has_first(m, k, j);
    } else {
        assert(first_entry(m, k, l));
    }
}

proof fn lemma_same_keys_first(m: Seq<(YamlV, YamlV)>, r: Seq<(YamlV, YamlV)>, k: YamlV)
    requires
        m.len() <= r.len(),
        forall|l: int| 0 <= l < m.len() ==> (#[trigger] r[l]).0 == m[l].0,
        forall|l: int| m.len() <= l < r.len() ==> (#[trigger] r[l]).0 != k,
    ensures
        forall|j: int| first_entry(r, k, j) <==> first_entry(m, k, j),
{
    assert forall|j: int| first_entry(r, k, j) implies first_entry(m, k, j) by {
        assert forall|l: int| 0 <= l < j implies (#[trigger] m[l]).0 != k by {
            assert(r[l].0 != k);
        }
    }
    assert forall|j: int| first_entry(m, k, j) implies first_entry(r, k, j) by {
        assert forall|l: int| 0 <= l < j implies (#[trigger] r[l]).0 != k by {
            assert(m[l].0 != k);
        }
    }
}

proof fn lemma_put_reads(m: Seq<(YamlV, YamlV)>, k: YamlV, val: YamlV, k2: YamlV)
    ensures
        value_at(put(m, k, val), k) == Some(val),
        k2 != k ==> value_at(put(m, k, val), k2) == value_at(m, k2),
{
    let r = put(m, k, val);
    if exists|i: int| first_entry(m, k, i) {
        let i = choose|i: int| first_entry(m, k, i);
        assert(first_entry(r, k, i));
        let c = choose|j: int| first_entry(r, k, j);
        lemma_first_entry_unique(r, k, i, c);
        if k2 != k {
            lemma_same_keys_first(m, r, k2);
            if exists|j: int| first_entry(m, k2, j) {
                let j = choose|j: int| first_entry(m, k2, j);
                let c2 = choose|j2: int| first_entry(r, k2, j2);
                lemma_first_entry_unique(m, k2, j, c2);
                assert(j != i);
            }
        }
    } else {
        let n = m.len() as int;
        assert(first_entry(r, k, n)) by {
            assert forall|l: int| 0 <= l < n implies (#[trigger] r[l]).0 != k by {
                if r[l].0 == k {
                    lemma_key_has_first(m, k, l);
                }
            }
        }
        let c = choose|j: int| first_entry(r, k, j);
        lemma_first_entry_unique(r, k, n, c);
        if k2 != k {
            lemma_same_keys_first(m, r, k2);
            if exists|j: int| first_entry(m, k2, j) {
                let j = choose|j: int| first_entry(m, k2, j);
                let c2 = choose|j2: int| first_entry(r, k2, j2);
                lemma_first_entry_unique(m, k2, j, c2);
            }
        }
    }
}

proof fn lemma_assign_in_reads(v: YamlV, key: Seq<char>, val: YamlV, k2: Seq<char>)
    requires
        mapping_under_tags(v),
    ensures
        entry_of(assign_in(v, key, val), key) == Some(val),
        k2 != key ==> entry_of(assign_in(v, key, val), k2) == entry_of(v, k2),
    decreases v,
{
    match v {
        YamlV::Mapping(m) => {
            lemma_put_reads(m, YamlV::String(key), val, YamlV::String(k2));
        },
        YamlV::Tagged(t, b) => {
            lemma_assign_in_reads(*b, key, val, k2);
        },
        _ => {},
    }
}

proof fn lemma_assign_reads(v: YamlV, key: Seq<char>, val: YamlV, k2: Seq<char>)
    requires
        assignable(v),
    ensures
        entry_of(assign_v(v, key, val), key) == Some(val),
        k2 != key ==> entry_of(assign_v(v, key, val), k2) == entry_of(v, k2),
{
    if v == YamlV::Null {
        let m = seq![(YamlV::String(key), val)];
        assert(first_entry(m, YamlV::String(key), 0));
        let c = choose|i: int| first_entry(m, YamlV::String(key), i);
        lemma_first_entry_unique(m, YamlV::String(key), 0, c);
        if k2 != key {
            assert(!exists|i: int| first_entry(m, YamlV::String(k2), i)) by {
                assert forall|i: int| !first_entry(m, YamlV::String(k2), i) by {
                    if 0 <= i < m.len() {
                        assert(m[i].0 == YamlV::String(key));
                    }
                }
            }
        }
    } else {
        lemma_assign_in_reads(v, key, val, k2);
    }
}

proof fn lemma_assign_all_assignable(v: YamlV, kv: Seq<(Seq<char>, YamlV)>)
    requires
        assignable(v),
    ensures
        assignable(assign_all(v, kv)),
    decreases kv.len(),
{
    if kv.len() > 0 {
        lemma_assign_all_assignable(v, kv.drop_last());
        lemma_assign_keeps_mapping(assign_all(v, kv.drop_last()), kv.last().0, kv.last().1);
    }
}

/// No key occurs twice among the settings `kv`.
pub open spec fn distinct_keys(kv: Seq<(Seq<char>, YamlV)>) -> bool {
    forall|a: int, b: int| 0 <= a < b < kv.len() ==> (#[trigger] kv[a]).0 != (#[trigger] kv[b]).0
}

proof fn lemma_assign_all_reads(v: YamlV, kv: Seq<(Seq<char>, YamlV)>, t: int)
    requires
        assignable(v),
        distinct_keys(kv),
        0 <= t < kv.len(),
    ensures
        entry_of(assign_all(v, kv), kv[t].0) == Some(kv[t].1),
    decreases kv.len(),
{
    let rest = kv.drop_last();
    let p = assign_all(v, rest);
    lemma_assign_all_assignable(v, rest);
    let last = kv.last();
    if t == kv.len() - 1 {
        lemma_assign_reads(p, last.0, last.1, last.0);
    } else {
        assert(distinct_keys(rest)) by {
            assert forall|a: int, b: int| 0 <= a < b < rest.len() implies (#[trigger] rest[a]).0 != (
            #[trigger] rest[b]).0 by {
                assert(rest[a] == kv[a] && rest[b] == kv[b]);
            }
        }
        lemma_assign_all_reads(v, rest, t);
        assert(rest[t] == kv[t]);
        assert(kv[t].0 != kv[kv.len() - 1].0);
        lemma_assign_reads(p, last.0, last.1, kv[t].0);
    }
}

proof fn lemma_update_section_reads(doc: YamlV, name: Seq<char>, kv: Seq<(Seq<char>, YamlV)>, n2: Seq<char>)
    ensures
        entry_of(update_section_v(doc, name, kv), name) == (match entry_of(doc, name) {
            Some(sec) => Some(assign_all(sec, kv)),
            None => None,
        }),
        n2 != name ==> entry_of(update_section_v(doc, name, kv), n2) == entry_of(doc, n2),
    decreases doc,
{
    match doc {
        YamlV::Tagged(t, b) => {
            lemma_update_section_reads(*b, name, kv, n2);
        },
        YamlV::Mapping(m) => {
            let k = YamlV::String(name);
            if exists|i: int| first_entry(m, k, i) {
                let i = choose|i: int| first_entry(m, k, i);
                let r = m.update(i, (m[i].0, assign_all(m[i].1, kv)));
                lemma_same_keys_first(m, r, k);
                let c = choose|j: int| first_entry(r, k, j);
                lemma_first_entry_unique(m, k, i, c);
                if n2 != name {
                    let k2 = YamlV::String(n2);
                    lemma_same_keys_first(m, r, k2);
                    if exists|j: int| first_entry(m, k2, j) {
                        let j = choose|j: int| first_entry(m, k2, j);
                        let c2 = choose|j2: int| first_entry(r, k2, j2);
                        lemma_first_entry_unique(m, k2, j, c2);
                        assert(j != i);
                    }
                }
            }
        },
        _ => {},
    }
}

proof fn lemma_section_ok_entry(doc: YamlV, name: Seq<char>)
    requires
        section_ok(doc, name),
    ensures
        entry_of(doc, name) matches Some(sec) ==> assignable(sec),
    decreases doc,
{
    match doc {
        YamlV::Tagged(_, b) => {
            lemma_section_ok_entry(*b, name);
        },
        YamlV::Mapping(m) => {
            if exists|i: int| first_entry(m, YamlV::String(name), i) {
                let i = choose|i: int| first_entry(m, YamlV::String(name), i);
                assert(assignable(m[i].1));
            }
        },
        _ => {},
    }
}

/// Reading the saved settings back gives what was saved: where `doc`'s
/// `config` and `display` sections can be written, the `config` section,
/// when there is one, reads `THEME` and `COM_PORT` as saved, the `display`
/// section, when there is one, reads `REVISION`, `BRIGHTNESS` and
/// `DISPLAY_REVERSE` as saved, and a missing section stays missing.
pub proof fn lemma_saved_settings_read_back(
    doc: YamlV,
    theme: Seq<char>,
    com_port: Seq<char>,
    rev: Revision,
    brightness: u8,
    reverse: bool,
)
    requires
        settings_writable(doc),
    ensures
        ({
            let saved = saved_settings_v(doc, theme, com_port, rev, brightness, reverse);
            &&& entry_of(doc, "config"@) is None ==> entry_of(saved, "config"@) is None
            &&& entry_of(doc, "config"@) is Some ==> (entry_of(saved, "config"@) matches Some(c) && entry_of(
                c,
                "THEME"@,
            ) == Some(YamlV::String(theme)) && entry_of(c, "COM_PORT"@) == Some(YamlV::String(com_port)))
            &&& entry_of(doc, "display"@) is None ==> entry_of(saved, "display"@) is None
            &&& entry_of(doc, "display"@) is Some ==> (entry_of(saved, "display"@) matches Some(d) && entry_of(
                d,
                "REVISION"@,
            ) == Some(YamlV::String(revision_keyword(rev))) && entry_of(d, "BRIGHTNESS"@) == Some(
                YamlV::Number(YamlNumberV::PosInt(brightness as u64)),
            ) && entry_of(d, "DISPLAY_REVERSE"@) == Some(YamlV::Bool(reverse)))
        }),
{
    reveal_strlit("config");
    reveal_strlit("display");
    reveal_strlit("THEME");
    reveal_strlit("COM_PORT");
    reveal_strlit("REVISION");
    reveal_strlit("BRIGHTNESS");
    reveal_strlit("DISPLAY_REVERSE");
    let config = seq![("THEME"@, YamlV::String(theme)), ("COM_PORT"@, YamlV::String(com_port))];
    let display = seq![
        ("REVISION"@, YamlV::String(revision_keyword(rev))),
        ("BRIGHTNESS"@, YamlV::Number(YamlNumberV::PosInt(brightness as u64))),
        ("DISPLAY_REVERSE"@, YamlV::Bool(reverse)),
    ];
    assert("config"@ != "display"@) by {
        assert("config"@.len() != "display"@.len());
    }
    assert(distinct_keys(config)) by {
        assert("THEME"@.len() != "COM_PORT"@.len());
    }
    assert(distinct_keys(display)) by {
        assert("REVISION"@.len() != "BRIGHTNESS"@.len());
        assert("REVISION"@.len() != "DISPLAY_REVERSE"@.len());
        assert("BRIGHTNESS"@.len() != "DISPLAY_REVERSE"@.len());
    }
    let d1 = update_section_v(doc, "config"@, config);
    lemma_update_section_reads(doc, "config"@, config, "display"@);
    lemma_update_section_reads(d1, "display"@, display, "config"@);
    lemma_section_ok_entry(doc, "config"@);
    lemma_section_ok_entry(doc, "display"@);
    if let Some(c) = entry_of(doc, "config"@) {
        lemma_assign_all_reads(c, config, 0);
        lemma_assign_all_reads(c, config, 1);
    }
    if let Some(d) = entry_of(doc, "display"@) {
        lemma_assign_all_reads(d, display, 0);
        lemma_assign_all_reads(d, display, 1);
        lemma_assign_all_reads(d, display, 2);
    }
}

} // verus!
