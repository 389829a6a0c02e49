//! Mappings from names to script values, as lists of entries with distinct
//! names, in the order in which the names first occurred.
//!
//! A stream may hold a name more than once within one mapping. The mapping
//! then holds the name once, with the value that came last, at the place
//! where the name came first.

use vstd::prelude::*;
use crate::script::{ScriptProperty, ScriptValue};

verus! {

/// True when some entry of `props` has the name `name`.
pub open spec fn has_name(props: Seq<ScriptProperty>, name: Seq<char>) -> bool {
    exists|i: int| 0 <= i < props.len() && #[trigger] props[i].name == name
}

/// True when no two entries of `props` share a name.
pub open spec fn distinct_names(props: Seq<ScriptProperty>) -> bool {
    forall|i: int, j: int|
        0 <= i < j < props.len() ==> #[trigger] props[i].name != #[trigger] props[j].name
}

/// Stores `p` in a mapping: an entry of the same name keeps its place and
/// takes the new value; a new name is appended.
pub open spec fn upsert(props: Seq<ScriptProperty>, p: ScriptProperty) -> Seq<ScriptProperty> {
    if has_name(props, p.name) {
        Seq::new(
            props.len(),
            |i: int|
                if props[i].name == p.name {
                    p
                } else {
                    props[i]
                },
        )
    } else {
        props.push(p)
    }
}

/// The mapping that a list of entries denotes, read front to back: where a
/// name occurs more than once, the last value wins, at the place of the first
/// occurrence.
pub open spec fn merged(raw: Seq<ScriptProperty>) -> Seq<ScriptProperty>
    decreases raw.len(),
{
    if raw.len() == 0 {
        Seq::empty()
    } else {
        upsert(merged(raw.drop_last()), raw.last())
    }
}

/// Storing an entry keeps the names distinct.
pub proof fn lemma_upsert_distinct(props: Seq<ScriptProperty>, p: ScriptProperty)
    requires
        distinct_names(props),
    ensures
        distinct_names(upsert(props, p)),
        has_name(upsert(props, p), p.name),
{
    let after = upsert(props, p);
    if has_name(props, p.name) {
        let k = choose|k: int| 0 <= k < props.len() && #[trigger] props[k].name == p.name;
        assert(after[k].name == p.name);
        assert forall|i: int, j: int| 0 <= i < j < after.len() implies #[trigger] after[i].name
            != #[trigger] after[j].name by {
            assert(after[i].name == props[i].name);
            assert(after[j].name == props[j].name);
        }
    } else {
        assert(after[props.len() as int].name == p.name);
        assert forall|i: int, j: int| 0 <= i < j < after.len() implies #[trigger] after[i].name
            != #[trigger] after[j].name by {
            if j < props.len() {
                assert(after[i].name == props[i].name);
                assert(after[j].name == props[j].name);
            } else {
                assert(after[i].name == props[i].name);
            }
        }
    }
}

/// A mapping read from a list of entries holds no name twice.
pub proof fn lemma_merged_distinct(raw: Seq<ScriptProperty>)
    ensures
        distinct_names(merged(raw)),
    decreases raw.len(),
{
    if raw.len() > 0 {
        lemma_merged_distinct(raw.drop_last());
        lemma_upsert_distinct(merged(raw.drop_last()), raw.last());
    }
}

/// True when every entry of `props` holds a well-formed value.
pub open spec fn values_well_formed(props: Seq<ScriptProperty>) -> bool {
    forall|i: int| 0 <= i < props.len() ==> (#[trigger] props[i]).value.well_formed()
}

/// The value that goes by `name` in a list of entries read front to back:
/// that of the last entry of that name.
pub open spec fn last_value(raw: Seq<ScriptProperty>, name: Seq<char>) -> Option<ScriptValue>
    decreases raw.len(),
{
    if raw.len() == 0 {
        None
    } else if raw.last().name == name {
        Some(raw.last().value)
    } else {
        last_value(raw.drop_last(), name)
    }
}

/// True when the mapping `props` holds `value` under `name`.
pub open spec fn maps_to(props: Seq<ScriptProperty>, name: Seq<char>, value: ScriptValue) -> bool {
    exists|i: int|
        0 <= i < props.len() && (#[trigger] props[i]).name == name && props[i].value == value
}

/// Storing an entry keeps the values well-formed, if the new one is.
pub proof fn lemma_upsert_well_formed(props: Seq<ScriptProperty>, p: ScriptProperty)
    requires
        values_well_formed(props),
        p.value.well_formed(),
    ensures
        values_well_formed(upsert(props, p)),
{
    let after = upsert(props, p);
    assert forall|i: int| 0 <= i < after.len() implies (#[trigger] after[i]).value.well_formed() by {
        if i < props.len() {
            assert(after[i] == p || after[i] == props[i]);
        }
    }
}

/// A mapping read from entries with well-formed values is well-formed.
pub proof fn lemma_merged_well_formed(raw: Seq<ScriptProperty>)
    requires
        values_well_formed(raw),
    ensures
        values_well_formed(merged(raw)),
        distinct_names(merged(raw)),
    decreases raw.len(),
{
    lemma_merged_distinct(raw);
    if raw.len() > 0 {
        let front = raw.drop_last();
        assert forall|i: int| 0 <= i < front.len() implies (#[trigger] front[i]).value.well_formed() by {
            assert(front[i] == raw[i]);
        }
        lemma_merged_well_formed(front);
        assert(raw.last() == raw[raw.len() - 1]);
        lemma_upsert_well_formed(merged(front), raw.last());
    }
}

/// A list of entries whose names are distinct is kept as it is.
pub proof fn lemma_merged_keeps_distinct(raw: Seq<ScriptProperty>)
    requires
        distinct_names(raw),
    ensures
        merged(raw) == raw,
    decreases raw.len(),
{
    if raw.len() > 0 {
        let front = raw.drop_last();
        assert forall|i: int, j: int| 0 <= i < j < front.len() implies #[trigger] front[i].name
            != #[trigger] front[j].name by {
            assert(front[i] == raw[i]);
            assert(front[j] == raw[j]);
        }
        lemma_merged_keeps_distinct(front);
        assert(!has_name(front, raw.last().name)) by {
            if has_name(front, raw.last().name) {
                let k = choose|k: int|
                    0 <= k < front.len() && #[trigger] front[k].name == raw.last().name;
                assert(front[k] == raw[k]);
                assert(raw[k].name != raw[raw.len() - 1].name);
            }
        }
        assert(front.push(raw.last()) =~= raw);
    } else {
        assert(merged(raw) =~= raw);
    }
}

/// The last writer wins: the mapping read from a list of entries holds a
/// name exactly when the list does, and holds under it the value of the
/// last entry of that name.
pub proof fn lemma_merged_last_wins(raw: Seq<ScriptProperty>, name: Seq<char>)
    ensures
        has_name(merged(raw), name) <==> has_name(raw, name),
        has_name(raw, name) <==> last_value(raw, name) is Some,
        forall|value: ScriptValue|
            maps_to(merged(raw), name, value) <==> last_value(raw, name) == Some(value),
    decreases raw.len(),
{
    lemma_merged_distinct(raw);
    let now = merged(raw);
    if raw.len() == 0 {
        assert forall|value: ScriptValue| !maps_to(now, name, value) by {}
    } else {
        let front = raw.drop_last();
        let p = raw.last();
        let was = merged(front);
        lemma_merged_last_wins(front, name);
        lemma_merged_last_wins(front, p.name);
        lemma_merged_distinct(front);
        lemma_upsert_distinct(was, p);
        // the names of the list
        if has_name(raw, name) {
            let k = choose|k: int| 0 <= k < raw.len() && #[trigger] raw[k].name == name;
            if k < front.len() {
                assert(front[k].name == name);
            }
        }
        if has_name(front, name) {
            let k = choose|k: int| 0 <= k < front.len() && #[trigger] front[k].name == name;
            assert(raw[k].name == name);
        }
        assert(raw[raw.len() - 1] == p);
        assert(has_name(raw, name) <==> (p.name == name || has_name(front, name)));
        // the names of the mapping
        if has_name(was, name) {
            let k = choose|k: int| 0 <= k < was.len() && #[trigger] was[k].name == name;
            assert(now[k].name == name);
        }
        if has_name(now, name) && p.name != name {
            let k = choose|k: int| 0 <= k < now.len() && #[trigger] now[k].name == name;
            if k < was.len() {
                assert(was[k].name == name);
            }
        }
        assert(has_name(now, name) <==> (p.name == name || has_name(was, name)));
        // the values
        assert forall|value: ScriptValue|
            maps_to(now, name, value) <==> last_value(raw, name) == Some(value) by {
            if maps_to(now, name, value) {
                let k = choose|k: int|
                    0 <= k < now.len() && (#[trigger] now[k]).name == name && now[k].value
                        == value;
                if p.name == name {
                    if has_name(was, p.name) {
                        assert(now[k] == p);
                    } else {
                        if k < was.len() {
                            assert(was[k].name == name);
                        }
                    }
                } else {
                    assert(k < was.len());
                    assert(was[k] == now[k]);
                    assert(maps_to(was, name, value));
                }
            }
            if last_value(raw, name) == Some(value) {
                if p.name == name {
                    if has_name(was, p.name) {
                        let k = choose|k: int|
                            0 <= k < was.len() && #[trigger] was[k].name == p.name;
                        assert(now[k] == p);
                    } else {
                        assert(now[was.len() as int] == p);
                    }
                } else {
                    assert(maps_to(was, name, value));
                    let k = choose|k: int|
                        0 <= k < was.len() && (#[trigger] was[k]).name == name && was[k].value
                            == value;
                    assert(now[k] == was[k]);
                }
            }
        }
    }
}

} // verus!
