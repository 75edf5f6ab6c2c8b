//! The name index: maps a caller-chosen name to the current location of the
//! named task inside the task store. The index never owns a task; every
//! mutation that moves or removes a named task keeps it consistent.

use vstd::prelude::*;
use crate::task::{TaskId, TaskIdModel};

verus! {

/// One index entry: a name and the location of the task that carries it.
pub struct NameEntry {
    pub name: Vec<u8>,
    pub id: TaskId,
}

/// The mathematical image of a [`NameEntry`].
#[verifier::ext_equal]
pub ghost struct NameEntryModel {
    pub name: Seq<u8>,
    pub id: TaskIdModel,
}

impl View for NameEntry {
    type V = NameEntryModel;

    open spec fn view(&self) -> NameEntryModel {
        NameEntryModel { name: self.name@, id: self.id@ }
    }
}

/// The image of a whole index.
pub open spec fn names_model(s: Seq<NameEntry>) -> Seq<NameEntryModel> {
    s.map_values(|e: NameEntry| e@)
}

/// The location the index gives for `n`: the first entry named `n`, if any.
pub open spec fn name_lookup(s: Seq<NameEntryModel>, n: Seq<u8>) -> Option<TaskIdModel>
    decreases s.len(),
{
    if s.len() == 0 {
        None
    } else if s[0].name == n {
        Some(s[0].id)
    } else {
        name_lookup(s.skip(1), n)
    }
}

/// The index after dropping the first entry named `n` (unchanged if none).
pub open spec fn name_remove(s: Seq<NameEntryModel>, n: Seq<u8>) -> Seq<NameEntryModel>
    decreases s.len(),
{
    if s.len() == 0 {
        s
    } else if s[0].name == n {
        s.skip(1)
    } else {
        seq![s[0]] + name_remove(s.skip(1), n)
    }
}

/// The index after retargeting the first entry named `n` to `id` (unchanged
/// if none).
pub open spec fn name_set(s: Seq<NameEntryModel>, n: Seq<u8>, id: TaskIdModel) -> Seq<NameEntryModel>
    decreases s.len(),
{
    if s.len() == 0 {
        s
    } else if s[0].name == n {
        seq![NameEntryModel { name: n, id }] + s.skip(1)
    } else {
        seq![s[0]] + name_set(s.skip(1), n, id)
    }
}

/// No two entries share a name.
pub open spec fn names_unique(s: Seq<NameEntryModel>) -> bool {
    forall|i: int, j: int| 0 <= i < j < s.len() ==> s[i].name != s[j].name
}

/// Where the scan finds `n` at position `j`, the spec functions above act at
/// exactly that position.
pub proof fn lemma_name_found(s: Seq<NameEntryModel>, n: Seq<u8>, id: TaskIdModel, j: int)
    requires
        0 <= j < s.len(),
        s[j].name == n,
        forall|k: int| 0 <= k < j ==> s[k].name != n,
    ensures
        name_lookup(s, n) == Some(s[j].id),
        name_remove(s, n) == s.remove(j),
        name_set(s, n, id) == s.update(j, NameEntryModel { name: n, id }),
    decreases j,
{
    if j == 0 {
        assert(name_remove(s, n) =~= s.remove(0));
        assert(name_set(s, n, id) =~= s.update(0, NameEntryModel { name: n, id }));
    } else {
        let t = s.skip(1);
        assert(forall|k: int| 0 <= k < j - 1 ==> t[k] == s[k + 1]);
        lemma_name_found(t, n, id, j - 1);
        assert(name_remove(s, n) =~= s.remove(j)) by {
            assert(name_remove(s, n) == seq![s[0]] + t.remove(j - 1));
        }
        assert(name_set(s, n, id) =~= s.update(j, NameEntryModel { name: n, id })) by {
            assert(name_set(s, n, id) == seq![s[0]] + t.update(j - 1, NameEntryModel { name: n, id }));
        }
    }
}

/// Where no entry is named `n`, lookup fails and the mutators do nothing.
pub proof fn lemma_name_absent(s: Seq<NameEntryModel>, n: Seq<u8>, id: TaskIdModel)
    requires
        forall|k: int| 0 <= k < s.len() ==> s[k].name != n,
    ensures
        name_lookup(s, n) is None,
        name_remove(s, n) == s,
        name_set(s, n, id) == s,
    decreases s.len(),
{
    if s.len() > 0 {
        let t = s.skip(1);
        assert(forall|k: int| 0 <= k < t.len() ==> t[k] == s[k + 1]);
        lemma_name_absent(t, n, id);
        assert(name_remove(s, n) =~= s);
        assert(name_set(s, n, id) =~= s);
    }
}

/// Lookup succeeds exactly where some entry carries the name.
pub proof fn lemma_name_lookup_found(s: Seq<NameEntryModel>, n: Seq<u8>)
    ensures
        (name_lookup(s, n) is Some) <==> exists|k: int| 0 <= k < s.len() && s[k].name == n,
    decreases s.len(),
{
    if s.len() > 0 {
        let t = s.skip(1);
        assert(forall|k: int| 0 <= k < t.len() ==> t[k] == s[k + 1]);
        lemma_name_lookup_found(t, n);
        if s[0].name != n {
            if exists|k: int| 0 <= k < s.len() && s[k].name == n {
                let k = choose|k: int| 0 <= k < s.len() && s[k].name == n;
                assert(t[k - 1].name == n);
            }
        }
    }
}

/// Pushing an entry leaves every earlier binding in force; a fresh name
/// binds to the new entry.
pub proof fn lemma_name_lookup_push(s: Seq<NameEntryModel>, e: NameEntryModel, n: Seq<u8>)
    ensures
        name_lookup(s, n) is Some ==> name_lookup(s.push(e), n) == name_lookup(s, n),
        name_lookup(s, n) is None && e.name == n ==> name_lookup(s.push(e), n) == Some(e.id),
        name_lookup(s, n) is None && e.name != n ==> name_lookup(s.push(e), n) is None,
    decreases s.len(),
{
    if s.len() == 0 {
        assert(s.push(e)[0] == e);
        if e.name != n {
            assert(s.push(e).skip(1) =~= Seq::<NameEntryModel>::empty());
            assert(name_lookup(s.push(e).skip(1), n) is None);
            assert(name_lookup(s.push(e), n) is None);
        }
    } else {
        assert(s.push(e)[0] == s[0]);
        assert(s.push(e).skip(1) =~= s.skip(1).push(e));
        lemma_name_lookup_push(s.skip(1), e, n);
        if s[0].name != n {
            assert(name_lookup(s.push(e), n) == name_lookup(s.skip(1).push(e), n));
            assert(name_lookup(s, n) == name_lookup(s.skip(1), n));
        }
    }
}

/// Removing one name leaves every other name's binding in force.
pub proof fn lemma_lookup_remove_other(s: Seq<NameEntryModel>, n: Seq<u8>, other: Seq<u8>)
    requires
        n != other,
    ensures
        name_lookup(name_remove(s, n), other) == name_lookup(s, other),
    decreases s.len(),
{
    if s.len() > 0 {
        if s[0].name == n {
        } else {
            lemma_lookup_remove_other(s.skip(1), n, other);
            let r = seq![s[0]] + name_remove(s.skip(1), n);
            assert(r[0] == s[0]);
            assert(r.skip(1) =~= name_remove(s.skip(1), n));
        }
    }
}

/// With unique names, removing a name really unbinds it.
pub proof fn lemma_lookup_remove_self(s: Seq<NameEntryModel>, n: Seq<u8>)
    requires
        names_unique(s),
    ensures
        name_lookup(name_remove(s, n), n) is None,
    decreases s.len(),
{
    if s.len() > 0 {
        let t = s.skip(1);
        assert(forall|k: int| 0 <= k < t.len() ==> t[k] == s[k + 1]);
        if s[0].name == n {
            assert(forall|k: int| 0 <= k < t.len() ==> t[k].name != n);
            lemma_name_absent(t, n, s[0].id);
        } else {
            lemma_lookup_remove_self(t, n);
            let r = seq![s[0]] + name_remove(t, n);
            assert(r[0] == s[0]);
            assert(r.skip(1) =~= name_remove(t, n));
        }
    }
}

/// Retargeting preserves length and every entry's name.
pub proof fn lemma_name_set_names(s: Seq<NameEntryModel>, n: Seq<u8>, id: TaskIdModel)
    ensures
        name_set(s, n, id).len() == s.len(),
        forall|i: int| 0 <= i < s.len() ==> name_set(s, n, id)[i].name == s[i].name,
    decreases s.len(),
{
    if s.len() > 0 {
        if s[0].name == n {
        } else {
            lemma_name_set_names(s.skip(1), n, id);
            assert(forall|i: int|
                1 <= i < s.len() ==> name_set(s, n, id)[i] == name_set(s.skip(1), n, id)[i - 1]);
            assert(forall|i: int| 1 <= i < s.len() ==> s.skip(1)[i - 1] == s[i]);
        }
    }
}

/// Retargeting a bound name rebinds it to the new location.
pub proof fn lemma_lookup_set_self(s: Seq<NameEntryModel>, n: Seq<u8>, id: TaskIdModel)
    requires
        name_lookup(s, n) is Some,
    ensures
        name_lookup(name_set(s, n, id), n) == Some(id),
    decreases s.len(),
{
    if s.len() > 0 {
        if s[0].name == n {
            let r = seq![NameEntryModel { name: n, id }] + s.skip(1);
            assert(r[0].name == n && r[0].id == id);
        } else {
            lemma_lookup_set_self(s.skip(1), n, id);
            let r = seq![s[0]] + name_set(s.skip(1), n, id);
            assert(r[0] == s[0]);
            assert(r.skip(1) =~= name_set(s.skip(1), n, id));
        }
    }
}

/// Retargeting one name leaves every other name's binding in force.
pub proof fn lemma_lookup_set_other(s: Seq<NameEntryModel>, n: Seq<u8>, id: TaskIdModel, other: Seq<u8>)
    requires
        n != other,
    ensures
        name_lookup(name_set(s, n, id), other) == name_lookup(s, other),
    decreases s.len(),
{
    if s.len() > 0 {
        if s[0].name == n {
            let r = seq![NameEntryModel { name: n, id }] + s.skip(1);
            assert(r[0].name == n);
            assert(r.skip(1) =~= s.skip(1));
        } else {
            lemma_lookup_set_other(s.skip(1), n, id, other);
            let r = seq![s[0]] + name_set(s.skip(1), n, id);
            assert(r[0] == s[0]);
            assert(r.skip(1) =~= name_set(s.skip(1), n, id));
        }
    }
}

/// Every entry that removal keeps was an entry before.
pub proof fn lemma_name_remove_subset(s: Seq<NameEntryModel>, n: Seq<u8>)
    ensures
        forall|i: int|
            0 <= i < name_remove(s, n).len() ==> s.contains(#[trigger] name_remove(s, n)[i]),
    decreases s.len(),
{
    if s.len() > 0 {
        let t = s.skip(1);
        assert(forall|k: int| 0 <= k < t.len() ==> t[k] == s[k + 1]);
        lemma_name_remove_subset(t, n);
        if s[0].name == n {
            assert(forall|i: int| 0 <= i < t.len() ==> s.contains(#[trigger] t[i]));
        } else {
            let r = seq![s[0]] + name_remove(t, n);
            assert(r[0] == s[0] && s.contains(s[0]));
            assert(forall|i: int| 1 <= i < r.len() ==> r[i] == name_remove(t, n)[i - 1]);
            assert(forall|i: int| 1 <= i < r.len() ==> {
                &&& t.contains(#[trigger] r[i])
                &&& s.contains(r[i])
            }) by {
                assert(forall|i: int|
                    1 <= i < r.len() ==> t.contains(#[trigger] name_remove(t, n)[i - 1]));
                assert(forall|w: int| 0 <= w < t.len() ==> s[w + 1] == #[trigger] t[w]);
            }
        }
    }
}

/// Removal keeps names unique.
pub proof fn lemma_unique_remove(s: Seq<NameEntryModel>, n: Seq<u8>)
    requires
        names_unique(s),
    ensures
        names_unique(name_remove(s, n)),
    decreases s.len(),
{
    if s.len() > 0 {
        let t = s.skip(1);
        assert(forall|k: int| 0 <= k < t.len() ==> t[k] == s[k + 1]);
        if s[0].name == n {
        } else {
            lemma_unique_remove(t, n);
            lemma_name_remove_subset(t, n);
            let r = seq![s[0]] + name_remove(t, n);
            assert(forall|i: int, j: int| 0 <= i < j < r.len() && i >= 1 ==> r[i].name != r[j].name)
                by {
                assert(forall|i: int|
                    1 <= i < r.len() ==> r[i] == name_remove(t, n)[i - 1]);
            }
            assert(forall|j: int| 1 <= j < r.len() ==> r[0].name != (#[trigger] r[j]).name) by {
                assert(forall|j: int| 1 <= j < r.len() ==> t.contains(#[trigger] r[j]));
                assert(forall|w: int| 0 <= w < t.len() ==> s[0].name != (#[trigger] t[w]).name);
            }
        }
    }
}

/// Retargeting keeps names unique.
pub proof fn lemma_unique_set(s: Seq<NameEntryModel>, n: Seq<u8>, id: TaskIdModel)
    requires
        names_unique(s),
    ensures
        names_unique(name_set(s, n, id)),
{
    lemma_name_set_names(s, n, id);
    let r = name_set(s, n, id);
    assert(forall|i: int, j: int| 0 <= i < j < r.len() ==> (#[trigger] r[i]).name != (#[trigger] r[j]).name)
        by {
        assert(forall|i: int| 0 <= i < s.len() ==> (#[trigger] r[i]).name == s[i].name);
    }
}

/// With unique names, every entry is the one its own name resolves to.
pub proof fn lemma_unique_lookup_self(s: Seq<NameEntryModel>)
    requires
        names_unique(s),
    ensures
        forall|i: int|
            0 <= i < s.len() ==> name_lookup(s, (#[trigger] s[i]).name) == Some(s[i].id),
    decreases s.len(),
{
    if s.len() > 0 {
        let t = s.skip(1);
        assert(forall|k: int| 0 <= k < t.len() ==> t[k] == s[k + 1]);
        lemma_unique_lookup_self(t);
        assert(forall|i: int|
            1 <= i < s.len() ==> name_lookup(s, (#[trigger] s[i]).name) == Some(s[i].id)) by {
            assert(forall|i: int| 1 <= i < s.len() ==> (#[trigger] s[i]).name != s[0].name);
            assert(forall|i: int| 1 <= i < s.len() ==> t[i - 1] == #[trigger] s[i]);
        }
    }
}

/// A successful lookup names an actual entry.
pub proof fn lemma_lookup_implies_entry(s: Seq<NameEntryModel>, n: Seq<u8>, id: TaskIdModel)
    requires
        name_lookup(s, n) == Some(id),
    ensures
        exists|i: int| 0 <= i < s.len() && s[i].name == n && s[i].id == id,
    decreases s.len(),
{
    if s[0].name == n {
        assert(s[0].name == n && s[0].id == id);
    } else {
        lemma_lookup_implies_entry(s.skip(1), n, id);
        let i = choose|i: int| 0 <= i < s.skip(1).len() && s.skip(1)[i].name == n && s.skip(1)[i].id
            == id;
        assert(s[i + 1].name == n && s[i + 1].id == id);
    }
}

/// Byte-for-byte comparison of two names.
pub fn bytes_eq(a: &Vec<u8>, b: &Vec<u8>) -> (r: bool)
    ensures
        r == (a@ == b@),
{
    if a.len() != b.len() {
        return false;
    }
    let mut i: usize = 0;
    while i < a.len()
        invariant
            0 <= i <= a.len(),
            a.len() == b.len(),
            forall|k: int| 0 <= k < i ==> a@[k] == b@[k],
        decreases a.len() - i,
    {
        if a[i] != b[i] {
            return false;
        }
        i = i + 1;
    }
    proof {
        assert(a@ =~= b@);
    }
    true
}

/// An owned copy of a name.
pub fn copy_bytes(v: &Vec<u8>) -> (r: Vec<u8>)
    ensures
        r@ == v@,
{
    let mut r: Vec<u8> = Vec::new();
    let mut i: usize = 0;
    while i < v.len()
        invariant
            0 <= i <= v.len(),
            r@ == v@.subrange(0, i as int),
        decreases v.len() - i,
    {
        r.push(v[i]);
        proof {
            assert(r@ =~= v@.subrange(0, i + 1));
        }
        i = i + 1;
    }
    proof {
        assert(v@.subrange(0, v@.len() as int) =~= v@);
    }
    r
}

/// The position of the first entry named `n`, as the scan that every index
/// mutation starts from.
pub fn find_name(names: &Vec<NameEntry>, n: &Vec<u8>) -> (r: Option<usize>)
    ensures
        match r {
            Some(j) => j < names@.len() && names_model(names@)[j as int].name == n@
                && forall|k: int| 0 <= k < j ==> names_model(names@)[k].name != n@,
            None => forall|k: int|
                0 <= k < names@.len() ==> names_model(names@)[k].name != n@,
        },
{
    let mut i: usize = 0;
    while i < names.len()
        invariant
            0 <= i <= names.len(),
            forall|k: int| 0 <= k < i ==> names_model(names@)[k].name != n@,
        decreases names.len() - i,
    {
        if bytes_eq(&names[i].name, n) {
            return Some(i);
        }
        i = i + 1;
    }
    None
}

/// Remove the entry named `n` from the index, where there is one.
pub fn remove_name(names: &mut Vec<NameEntry>, n: &Vec<u8>)
    ensures
        names_model(final(names)@) == name_remove(names_model(old(names)@), n@),
{
    let ghost s = names_model(names@);
    match find_name(names, n) {
        Some(j) => {
            names.remove(j);
            proof {
                lemma_name_found(s, n@, s[j as int].id, j as int);
                assert(names_model(names@) =~= s.remove(j as int));
            }
        }
        None => {
            proof {
                lemma_name_absent(s, n@, TaskIdModel { when: 0, index: 0 });
            }
        }
    }
}

/// Retarget the entry named `n` to `id`, where there is one.
pub fn set_name(names: &mut Vec<NameEntry>, n: &Vec<u8>, id: TaskId)
    ensures
        names_model(final(names)@) == name_set(names_model(old(names)@), n@, id@),
{
    let ghost s = names_model(names@);
    match find_name(names, n) {
        Some(j) => {
            let mut e = names.remove(j);
            e.id = id;
            names.insert(j, e);
            proof {
                lemma_name_found(s, n@, id@, j as int);
                assert(names_model(names@) =~= s.update(
                    j as int,
                    NameEntryModel { name: n@, id: id@ },
                ));
            }
        }
        None => {
            proof {
                lemma_name_absent(s, n@, id@);
            }
        }
    }
}

} // verus!
