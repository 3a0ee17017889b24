use vstd::prelude::*;

use crate::config::ExecutableType;

verus! {

/// Mathematical model of one registry entry: its name, the frozen absolute
/// source path, and the materialization mode.
pub struct EntryView {
    pub name: Seq<char>,
    pub path: Seq<char>,
    pub executable_type: ExecutableType,
}

/// Mathematical model of a whole registry: the informational schema version
/// and the entries in registration order.
pub struct ConfigView {
    pub version: Seq<char>,
    pub entries: Seq<EntryView>,
}

/// Some entry of `es` is named `name`.
pub open spec fn has_name(es: Seq<EntryView>, name: Seq<char>) -> bool {
    exists|i: int| 0 <= i < es.len() && es[i].name == name
}

/// Index of the first entry named `name` (meaningful only when one exists).
pub open spec fn first_index(es: Seq<EntryView>, name: Seq<char>) -> int
    decreases es.len(),
{
    if es.len() == 0 {
        0
    } else if es[0].name == name {
        0
    } else {
        1 + first_index(es.skip(1), name)
    }
}

/// No two entries share a name.
pub open spec fn names_unique(es: Seq<EntryView>) -> bool {
    forall|i: int, j: int| 0 <= i < j < es.len() ==> es[i].name != es[j].name
}

/// Registering `e`: overwrite the first entry of the same name in place,
/// or append a new entry.
pub open spec fn spec_add(es: Seq<EntryView>, e: EntryView) -> Seq<EntryView> {
    if has_name(es, e.name) {
        es.update(first_index(es, e.name), e)
    } else {
        es.push(e)
    }
}

/// Removing `name`: drop the first entry so named; no change if none is.
pub open spec fn spec_remove(es: Seq<EntryView>, name: Seq<char>) -> Seq<EntryView> {
    if has_name(es, name) {
        es.remove(first_index(es, name))
    } else {
        es
    }
}

/// Renaming: the first entry named `old_name` gets `new_name`; no change if
/// none is. Source path and mode are kept.
pub open spec fn spec_rename(es: Seq<EntryView>, old_name: Seq<char>, new_name: Seq<char>) -> Seq<
    EntryView,
> {
    if has_name(es, old_name) {
        let k = first_index(es, old_name);
        es.update(
            k,
            EntryView { name: new_name, path: es[k].path, executable_type: es[k].executable_type },
        )
    } else {
        es
    }
}

/// `first_index` really is the first index bearing `name`.
pub proof fn lemma_first_index(es: Seq<EntryView>, name: Seq<char>)
    requires
        has_name(es, name),
    ensures
        0 <= first_index(es, name) < es.len(),
        es[first_index(es, name)].name == name,
        forall|j: int| 0 <= j < first_index(es, name) ==> es[j].name != name,
    decreases es.len(),
{
    if es.len() == 0 {
    } else if es[0].name == name {
    } else {
        let i = choose|i: int| 0 <= i < es.len() && es[i].name == name;
        assert(es.skip(1)[i - 1] == es[i]);
        lemma_first_index(es.skip(1), name);
        assert forall|j: int| 0 <= j < first_index(es, name) implies es[j].name != name by {
            if j > 0 {
                assert(es.skip(1)[j - 1] == es[j]);
            }
        }
    }
}

/// Uniqueness of names survives a registration (overwrite or append).
pub proof fn lemma_add_preserves_unique(es: Seq<EntryView>, e: EntryView)
    requires
        names_unique(es),
    ensures
        names_unique(spec_add(es, e)),
{
    if has_name(es, e.name) {
        lemma_first_index(es, e.name);
        let k = first_index(es, e.name);
        let post = es.update(k, e);
        assert forall|i: int, j: int| 0 <= i < j < post.len() implies post[i].name
            != post[j].name by {
            assert(post[i].name == es[i].name);
            assert(post[j].name == es[j].name);
        }
    } else {
        let post = es.push(e);
        assert forall|i: int, j: int| 0 <= i < j < post.len() implies post[i].name
            != post[j].name by {
            if j == es.len() {
                assert(post[i] == es[i]);
                assert(!(0 <= i < es.len() && es[i].name == e.name));
            } else {
                assert(post[i] == es[i]);
                assert(post[j] == es[j]);
            }
        }
    }
}

/// Uniqueness of names survives a removal.
pub proof fn lemma_remove_preserves_unique(es: Seq<EntryView>, name: Seq<char>)
    requires
        names_unique(es),
    ensures
        names_unique(spec_remove(es, name)),
{
    if has_name(es, name) {
        lemma_first_index(es, name);
        let k = first_index(es, name);
        let post = es.remove(k);
        assert forall|i: int, j: int| 0 <= i < j < post.len() implies post[i].name
            != post[j].name by {
            let i0 = if i < k {
                i
            } else {
                i + 1
            };
            let j0 = if j < k {
                j
            } else {
                j + 1
            };
            assert(post[i] == es[i0]);
            assert(post[j] == es[j0]);
        }
    }
}

/// After removing `name` from a registry with unique names, no entry bears
/// `name` any more.
pub proof fn lemma_remove_removes(es: Seq<EntryView>, name: Seq<char>)
    requires
        names_unique(es),
    ensures
        !has_name(spec_remove(es, name), name),
{
    if has_name(es, name) {
        lemma_first_index(es, name);
        let k = first_index(es, name);
        let post = es.remove(k);
        assert forall|i: int| 0 <= i < post.len() implies post[i].name != name by {
            let i0 = if i < k {
                i
            } else {
                i + 1
            };
            assert(post[i] == es[i0]);
        }
    }
}

/// Removing a name twice is the same as removing it once: the second call
/// finds nothing to do.
pub proof fn lemma_remove_idempotent(es: Seq<EntryView>, name: Seq<char>)
    requires
        names_unique(es),
    ensures
        spec_remove(spec_remove(es, name), name) == spec_remove(es, name),
{
    lemma_remove_removes(es, name);
}

/// Uniqueness of names survives a rename, provided the new name is not
/// already taken by another entry.
pub proof fn lemma_rename_preserves_unique(
    es: Seq<EntryView>,
    old_name: Seq<char>,
    new_name: Seq<char>,
)
    requires
        names_unique(es),
        new_name == old_name || !has_name(es, new_name),
    ensures
        names_unique(spec_rename(es, old_name, new_name)),
{
    if has_name(es, old_name) {
        lemma_first_index(es, old_name);
        let k = first_index(es, old_name);
        let post = spec_rename(es, old_name, new_name);
        assert forall|i: int, j: int| 0 <= i < j < post.len() implies post[i].name
            != post[j].name by {
            if i != k && j != k {
                assert(post[i].name == es[i].name);
                assert(post[j].name == es[j].name);
            } else {
                let m = if i == k {
                    j
                } else {
                    i
                };
                assert(post[m].name == es[m].name);
                assert(post[k].name == new_name);
                if new_name == old_name {
                    assert(es[k].name == old_name);
                } else {
                    assert(!(0 <= m < es.len() && es[m].name == new_name));
                }
            }
        }
    }
}

/// After a registration of `e`, exactly the first entry named `e.name` holds
/// `e`'s path and mode, and such an entry exists.
pub proof fn lemma_add_registers(es: Seq<EntryView>, e: EntryView)
    ensures
        has_name(spec_add(es, e), e.name),
        spec_add(es, e)[first_index(spec_add(es, e), e.name)] == e,
{
    let post = spec_add(es, e);
    if has_name(es, e.name) {
        lemma_first_index(es, e.name);
        let k = first_index(es, e.name);
        assert(post[k] == e);
        assert(has_name(post, e.name));
        lemma_first_index(post, e.name);
        let k2 = first_index(post, e.name);
        if k2 < k {
            assert(post[k2] == es[k2]);
        }
        if k < k2 {
            assert(post[k].name == e.name);
        }
        assert(k2 == k);
    } else {
        let k = es.len() as int;
        assert(post[k] == e);
        assert(has_name(post, e.name));
        lemma_first_index(post, e.name);
        let k2 = first_index(post, e.name);
        if k2 < k {
            assert(post[k2] == es[k2]);
            assert(has_name(es, e.name));
        }
        assert(k2 == k);
    }
}

} // verus!
