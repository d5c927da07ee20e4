use vstd::prelude::*;

use crate::decimal::{decimal, decimal_text, lemma_decimal_text_digits};
use crate::object::{
    append_bytes, entry_bytes, hash_len, lemma_entry_round_trip, parse_entry, FileMode, ObjectError,
    ObjectSha, TreeEntry,
};
use crate::order::{
    bytes_lt, compare_bytes, lemma_bytes_lt_irreflexive, lemma_bytes_lt_total,
    lemma_bytes_lt_transitive,
};

verus! {

/// A file name with the view of its entry.
pub type ItemView = (Seq<u8>, (FileMode, Seq<u8>));

/// The view of one stored (name, entry) pair.
pub open spec fn item_view(p: (Vec<u8>, TreeEntry)) -> ItemView {
    (p.0@, p.1@)
}

/// The names of `s` strictly increase.
pub open spec fn sorted_names(s: Seq<ItemView>) -> bool {
    forall|i: int, j: int| 0 <= i < j < s.len() ==> bytes_lt(#[trigger] s[i].0, #[trigger] s[j].0)
}

/// The map that inserting the items of `s` in order into an empty map gives (a later item
/// replaces an earlier one of the same name).
pub open spec fn entries_map(s: Seq<ItemView>) -> Map<Seq<u8>, (FileMode, Seq<u8>)>
    decreases s.len(),
{
    if s.len() == 0 {
        Map::empty()
    } else {
        entries_map(s.drop_last()).insert(s.last().0, s.last().1)
    }
}

/// Whether some item of `s` has name `k`.
pub open spec fn has_name(s: Seq<ItemView>, k: Seq<u8>) -> bool {
    exists|i: int| 0 <= i < s.len() && (#[trigger] s[i]).0 == k
}

/// The map of a list holds exactly its names.
pub proof fn lemma_entries_map_dom(s: Seq<ItemView>)
    ensures
        forall|k: Seq<u8>| #[trigger] entries_map(s).contains_key(k) <==> has_name(s, k),
    decreases s.len(),
{
    if s.len() > 0 {
        let p = s.drop_last();
        lemma_entries_map_dom(p);
        assert(entries_map(s) == entries_map(p).insert(s.last().0, s.last().1));
        assert forall|k: Seq<u8>| #[trigger] entries_map(s).contains_key(k) <==> has_name(s, k) by {
            if has_name(s, k) {
                let i = choose|i: int| 0 <= i < s.len() && (#[trigger] s[i]).0 == k;
                if i < s.len() - 1 {
                    assert(p[i] == s[i]);
                    assert(has_name(p, k));
                }
            }
            if has_name(p, k) {
                let i = choose|i: int| 0 <= i < p.len() && (#[trigger] p[i]).0 == k;
                assert(s[i] == p[i]);
            }
            if k == s.last().0 {
                assert(s[s.len() - 1] == s.last());
            }
        }
    }
}

/// The map of a list gives a name the value of the last item with that name.
pub proof fn lemma_entries_map_value(s: Seq<ItemView>, i: int)
    requires
        0 <= i < s.len(),
        forall|j: int| i < j < s.len() ==> (#[trigger] s[j]).0 != s[i].0,
    ensures
        entries_map(s)[s[i].0] == s[i].1,
    decreases s.len(),
{
    if i < s.len() - 1 {
        let p = s.drop_last();
        assert(s[s.len() - 1].0 != s[i].0);
        assert forall|j: int| i < j < p.len() implies (#[trigger] p[j]).0 != p[i].0 by {
            assert(p[j] == s[j]);
        }
        lemma_entries_map_value(p, i);
    }
}

/// In a list with increasing names, every name occurs once, so the map holds each item.
pub proof fn lemma_sorted_map(s: Seq<ItemView>)
    requires
        sorted_names(s),
    ensures
        forall|k: Seq<u8>| #[trigger] entries_map(s).contains_key(k) <==> has_name(s, k),
        forall|i: int| 0 <= i < s.len() ==> entries_map(s)[(#[trigger] s[i]).0] == s[i].1,
{
    lemma_entries_map_dom(s);
    assert forall|i: int| 0 <= i < s.len() implies entries_map(s)[(#[trigger] s[i]).0] == s[i].1 by {
        assert forall|j: int| i < j < s.len() implies (#[trigger] s[j]).0 != s[i].0 by {
            assert(bytes_lt(s[i].0, s[j].0));
            lemma_bytes_lt_irreflexive(s[i].0);
        }
        lemma_entries_map_value(s, i);
    }
}

/// The entries of a tree, kept in increasing order of their file names, each name once.
pub struct TreeEntries {
    items: Vec<(Vec<u8>, TreeEntry)>,
}

impl TreeEntries {
    /// The entries in increasing order of their names.
    pub closed spec fn list(&self) -> Seq<ItemView> {
        self.items@.map_values(|p: (Vec<u8>, TreeEntry)| item_view(p))
    }

    #[verifier::type_invariant]
    spec fn names_increase(&self) -> bool {
        sorted_names(self.list())
    }
}

impl View for TreeEntries {
    type V = Map<Seq<u8>, (FileMode, Seq<u8>)>;

    open spec fn view(&self) -> Map<Seq<u8>, (FileMode, Seq<u8>)> {
        entries_map(self.list())
    }
}

impl TreeEntries {
    /// No entries.
    pub fn new() -> (res: TreeEntries)
        ensures
            res.list() == Seq::<ItemView>::empty(),
            res@ == Map::<Seq<u8>, (FileMode, Seq<u8>)>::empty(),
    {
        let res = TreeEntries { items: Vec::new() };
        proof {
            assert(res.list() =~= Seq::<ItemView>::empty());
        }
        res
    }

    /// The number of entries.
    pub fn len(&self) -> (res: usize)
        ensures
            res == self.list().len(),
    {
        self.items.len()
    }

    /// The names of the entries increase.
    pub fn names_are_sorted(&self)
        ensures
            sorted_names(self.list()),
    {
        proof {
            use_type_invariant(self);
        }
    }

    /// The stored pairs, in increasing order of name.
    pub fn items(&self) -> (res: &[(Vec<u8>, TreeEntry)])
        ensures
            res@.map_values(|p: (Vec<u8>, TreeEntry)| item_view(p)) == self.list(),
    {
        self.items.as_slice()
    }

    /// The entry stored under `name`, if any.
    pub fn get(&self, name: &[u8]) -> (res: Option<&TreeEntry>)
        ensures
            match res {
                Some(e) => self@.contains_key(name@) && self@[name@] == e@,
                None => !self@.contains_key(name@),
            },
    {
        proof {
            use_type_invariant(self);
            lemma_sorted_map(self.list());
        }
        let n = self.items.len();
        let mut i: usize = 0;
        while i < n
            invariant
                i <= n,
                n == self.list().len(),
                forall|j: int| 0 <= j < i ==> (#[trigger] self.list()[j]).0 != name@,
            decreases n - i,
        {
            let (_, eq) = compare_bytes(self.items[i].0.as_slice(), name);
            if eq {
                proof {
                    assert(self.list()[i as int] == item_view(self.items@[i as int]));
                    assert(self.list()[i as int].0 == name@);
                    use_type_invariant(self);
                    lemma_sorted_map(self.list());
                    assert(has_name(self.list(), name@));
                    assert(entries_map(self.list())[self.list()[i as int].0] == self.list()[i as int].1);
                }
                return Some(&self.items[i].1);
            }
            proof {
                assert(self.list()[i as int] == item_view(self.items@[i as int]));
            }
            i = i + 1;
        }
        proof {
            lemma_sorted_map(self.list());
            if has_name(self.list(), name@) {
                let j = choose|j: int| 0 <= j < self.list().len() && (#[trigger] self.list()[j]).0 == name@;
                assert(self.list()[j].0 != name@);
            }
        }
        None
    }

    /// Stores `entry` under `name`, replacing what was stored there.
    pub fn insert(&mut self, name: Vec<u8>, entry: TreeEntry)
        ensures
            final(self)@ == old(self)@.insert(name@, entry@),
    {
        proof {
            use_type_invariant(&*self);
        }
        let ghost old_list = self.list();
        let ghost item: ItemView = (name@, entry@);
        let n = self.items.len();
        let mut i: usize = 0;
        while i < n
            invariant
                i <= n,
                n == self.items@.len(),
                old_list == self.list(),
                forall|j: int| 0 <= j < i ==> bytes_lt((#[trigger] old_list[j]).0, name@),
            ensures
                i <= n,
                forall|j: int| 0 <= j < i ==> bytes_lt((#[trigger] old_list[j]).0, name@),
                i < n ==> !bytes_lt(old_list[i as int].0, name@),
            decreases n - i,
        {
            let (lt, _) = compare_bytes(self.items[i].0.as_slice(), name.as_slice());
            proof {
                assert(old_list[i as int] == item_view(self.items@[i as int]));
            }
            if !lt {
                break;
            }
            i = i + 1;
        }
        let found = i < n && compare_bytes(self.items[i].0.as_slice(), name.as_slice()).1;
        proof {
            lemma_sorted_map(old_list);
            if i < n {
                assert(old_list[i as int] == item_view(self.items@[i as int]));
            }
        }
        if found {
            let ghost new_list = old_list.update(i as int, item);
            proof {
                assert(new_list =~= self.items@.update(i as int, (name, entry)).map_values(
                    |p: (Vec<u8>, TreeEntry)| item_view(p),
                ));
                assert forall|a: int, b: int| 0 <= a < b < new_list.len() implies bytes_lt(
                    #[trigger] new_list[a].0,
                    #[trigger] new_list[b].0,
                ) by {
                    assert(bytes_lt(old_list[a].0, old_list[b].0));
                }
                lemma_sorted_map(new_list);
                assert(entries_map(new_list) =~= entries_map(old_list).insert(name@, entry@)) by {
                    assert forall|k: Seq<u8>| #[trigger] entries_map(new_list).contains_key(k)
                        <==> entries_map(old_list).insert(name@, entry@).contains_key(k) by {
                        if has_name(new_list, k) {
                            let j = choose|j: int| 0 <= j < new_list.len() && (#[trigger] new_list[j]).0 == k;
                            assert(old_list[j].0 == k);
                        }
                        if has_name(old_list, k) {
                            let j = choose|j: int| 0 <= j < old_list.len() && (#[trigger] old_list[j]).0 == k;
                            assert(new_list[j].0 == k);
                        }
                    }
                    assert forall|k: Seq<u8>| #[trigger] entries_map(new_list).contains_key(k)
                        implies entries_map(new_list)[k] == entries_map(old_list).insert(name@, entry@)[k] by {
                        let j = choose|j: int| 0 <= j < new_list.len() && (#[trigger] new_list[j]).0 == k;
                        assert(old_list[j].0 == k);
                        if j != i {
                            if j < i {
                                assert(bytes_lt(old_list[j].0, old_list[i as int].0));
                            } else {
                                assert(bytes_lt(old_list[i as int].0, old_list[j].0));
                            }
                            lemma_bytes_lt_irreflexive(k);
                            assert(k != name@);
                            assert(entries_map(new_list)[new_list[j].0] == new_list[j].1);
                            assert(entries_map(old_list)[old_list[j].0] == old_list[j].1);
                        } else {
                            assert(entries_map(new_list)[new_list[j].0] == new_list[j].1);
                        }
                    }
                }
            }
            let mut items: Vec<(Vec<u8>, TreeEntry)> = Vec::new();
            std::mem::swap(&mut items, &mut self.items);
            items.set(i, (name, entry));
            self.items = items;
        } else {
            let ghost new_list = old_list.insert(i as int, item);
            proof {
                assert(new_list =~= self.items@.insert(i as int, (name, entry)).map_values(
                    |p: (Vec<u8>, TreeEntry)| item_view(p),
                ));
                if i < n {
                    lemma_bytes_lt_total(old_list[i as int].0, name@);
                    assert(old_list[i as int].0 != name@);
                    assert(bytes_lt(name@, old_list[i as int].0));
                }
                assert forall|a: int, b: int| 0 <= a < b < new_list.len() implies bytes_lt(
                    #[trigger] new_list[a].0,
                    #[trigger] new_list[b].0,
                ) by {
                    if b < i {
                        assert(bytes_lt(old_list[a].0, old_list[b].0));
                    } else if b == i {
                        assert(bytes_lt(old_list[a].0, name@));
                    } else if a == i {
                        if b - 1 > i {
                            assert(bytes_lt(old_list[i as int].0, old_list[b - 1].0));
                            lemma_bytes_lt_transitive(name@, old_list[i as int].0, old_list[b - 1].0);
                        }
                    } else if a < i {
                        assert(bytes_lt(old_list[a].0, name@));
                        if b - 1 > i {
                            assert(bytes_lt(old_list[i as int].0, old_list[b - 1].0));
                            lemma_bytes_lt_transitive(name@, old_list[i as int].0, old_list[b - 1].0);
                        }
                        lemma_bytes_lt_transitive(old_list[a].0, name@, old_list[b - 1].0);
                    } else {
                        assert(bytes_lt(old_list[a - 1].0, old_list[b - 1].0));
                    }
                }
                lemma_sorted_map(new_list);
                assert(!has_name(old_list, name@)) by {
                    if has_name(old_list, name@) {
                        let j = choose|j: int| 0 <= j < old_list.len() && (#[trigger] old_list[j]).0 == name@;
                        if j < i {
                            lemma_bytes_lt_irreflexive(name@);
                        } else if j > i {
                            assert(bytes_lt(old_list[i as int].0, old_list[j].0));
                            lemma_bytes_lt_transitive(name@, old_list[i as int].0, old_list[j].0);
                            lemma_bytes_lt_irreflexive(name@);
                        }
                    }
                }
                assert(entries_map(new_list) =~= entries_map(old_list).insert(name@, entry@)) by {
                    assert forall|k: Seq<u8>| #[trigger] entries_map(new_list).contains_key(k)
                        <==> entries_map(old_list).insert(name@, entry@).contains_key(k) by {
                        if has_name(new_list, k) {
                            let j = choose|j: int| 0 <= j < new_list.len() && (#[trigger] new_list[j]).0 == k;
                            if j < i {
                                assert(old_list[j].0 == k);
                            } else if j > i {
                                assert(old_list[j - 1].0 == k);
                            }
                        }
                        if has_name(old_list, k) {
                            let j = choose|j: int| 0 <= j < old_list.len() && (#[trigger] old_list[j]).0 == k;
                            if j < i {
                                assert(new_list[j].0 == k);
                            } else {
                                assert(new_list[j + 1].0 == k);
                            }
                        }
                        if k == name@ {
                            assert(new_list[i as int].0 == k);
                        }
                    }
                    assert forall|k: Seq<u8>| #[trigger] entries_map(new_list).contains_key(k)
                        implies entries_map(new_list)[k] == entries_map(old_list).insert(name@, entry@)[k] by {
                        let j = choose|j: int| 0 <= j < new_list.len() && (#[trigger] new_list[j]).0 == k;
                        assert(entries_map(new_list)[new_list[j].0] == new_list[j].1);
                        if j < i {
                            assert(old_list[j].0 == k);
                            assert(k != name@);
                            assert(entries_map(old_list)[old_list[j].0] == old_list[j].1);
                        } else if j > i {
                            assert(old_list[j - 1].0 == k);
                            assert(k != name@);
                            assert(entries_map(old_list)[old_list[j - 1].0] == old_list[j - 1].1);
                        }
                    }
                }
            }
            let mut items: Vec<(Vec<u8>, TreeEntry)> = Vec::new();
            std::mem::swap(&mut items, &mut self.items);
            items.insert(i, (name, entry));
            self.items = items;
        }
    }
}

/// What reading tree entries from `pos` to the end of `data` gives: the entries in the order
/// they stand, or the first reason an entry cannot be read.
pub open spec fn parse_entries(data: Seq<u8>, pos: int, is_sha1: bool) -> Result<Seq<ItemView>, ObjectError>
    decreases data.len() - pos,
{
    match parse_entry(data, pos, is_sha1) {
        Err(e) => Err(e),
        Ok(None) => Ok(Seq::empty()),
        Ok(Some((name, entry, next))) => {
            if pos < next <= data.len() {
                match parse_entries(data, next, is_sha1) {
                    Ok(rest) => Ok(seq![(name, entry)] + rest),
                    Err(e) => Err(e),
                }
            } else {
                Ok(Seq::empty())
            }
        },
    }
}

/// `r` with the items `acc` put in front of its list.
pub open spec fn prepend(acc: Seq<ItemView>, r: Result<Seq<ItemView>, ObjectError>) -> Result<Seq<ItemView>, ObjectError> {
    match r {
        Ok(rest) => Ok(acc + rest),
        Err(e) => Err(e),
    }
}

/// The bytes of the entries of `s` one after another.
pub open spec fn payload(s: Seq<ItemView>) -> Seq<u8>
    decreases s.len(),
{
    if s.len() == 0 {
        Seq::empty()
    } else {
        payload(s.drop_last()) + entry_bytes(s.last().1, s.last().0)
    }
}

/// `tree `: the type name of a tree and the space after it.
pub open spec fn tree_prefix() -> Seq<u8> {
    seq![116u8, 114, 101, 101, 32]
}

/// The header of a tree object whose entries take `n` bytes: `tree <n>\0`.
pub open spec fn tree_header(n: nat) -> Seq<u8> {
    tree_prefix() + decimal_text(n) + seq![0u8]
}

/// A whole tree object (header and entries) for the items of `s`.
pub open spec fn tree_object_bytes(s: Seq<ItemView>) -> Seq<u8> {
    tree_header(payload(s).len()) + payload(s)
}

/// A tree: its name and its entries.
pub struct TreeObject {
    object_name: ObjectSha,
    entries: TreeEntries,
}

impl TreeObject {
    /// The name of this tree.
    pub closed spec fn name(&self) -> ObjectSha {
        self.object_name
    }

    /// The entries of this tree.
    pub closed spec fn contents(&self) -> TreeEntries {
        self.entries
    }

    pub fn object_name(&self) -> (res: &ObjectSha)
        ensures
            *res == self.name(),
    {
        &self.object_name
    }

    pub fn entries(&self) -> (res: &TreeEntries)
        ensures
            *res == self.contents(),
    {
        &self.entries
    }

    /// Reads the entries of a tree from `pos` to the end of `data` (hashes of 20 bytes where
    /// `is_sha1`, else 32); a later entry of the same name replaces an earlier one.
    pub fn read_tree(object_name: ObjectSha, data: &[u8], pos: usize, is_sha1: bool) -> (res: Result<TreeObject, ObjectError>)
        requires
            pos <= data@.len(),
            parse_entries(data@, pos as int, is_sha1) != Err::<Seq<ItemView>, ObjectError>(
                ObjectError::ModeWordNotUtf8,
            ),
        ensures
            match res {
                Ok(t) => {
                    &&& parse_entries(data@, pos as int, is_sha1) is Ok
                    &&& t.name() == object_name
                    &&& t.contents()@ == entries_map(parse_entries(data@, pos as int, is_sha1)->Ok_0)
                },
                Err(e) => parse_entries(data@, pos as int, is_sha1) == Err::<Seq<ItemView>, ObjectError>(e),
            },
    {
        Self::parse(object_name, data, pos, is_sha1)
    }

    /// `read_tree`, which reports a mode word that is not UTF-8 as an error.
    pub(crate) fn parse(object_name: ObjectSha, data: &[u8], pos: usize, is_sha1: bool) -> (res: Result<TreeObject, ObjectError>)
        requires
            pos <= data@.len(),
        ensures
            match res {
                Ok(t) => {
                    &&& parse_entries(data@, pos as int, is_sha1) is Ok
                    &&& t.name() == object_name
                    &&& t.contents()@ == entries_map(parse_entries(data@, pos as int, is_sha1)->Ok_0)
                },
                Err(e) => parse_entries(data@, pos as int, is_sha1) == Err::<Seq<ItemView>, ObjectError>(e),
            },
    {
        let mut entries = TreeEntries::new();
        let mut p = pos;
        let ghost mut acc: Seq<ItemView> = Seq::empty();
        proof {
            assert(prepend(acc, parse_entries(data@, p as int, is_sha1)) =~= parse_entries(data@, pos as int, is_sha1)) by {
                match parse_entries(data@, p as int, is_sha1) {
                    Ok(rest) => {
                        assert(acc + rest =~= rest);
                    },
                    Err(_) => {},
                }
            }
        }
        loop
            invariant
                pos <= p <= data@.len(),
                entries@ == entries_map(acc),
                parse_entries(data@, pos as int, is_sha1) == prepend(acc, parse_entries(data@, p as int, is_sha1)),
            decreases data@.len() - p,
        {
            match TreeEntry::parse(data, p, is_sha1) {
                Err(e) => {
                    return Err(e);
                },
                Ok(None) => {
                    proof {
                        assert(acc + Seq::<ItemView>::empty() =~= acc);
                    }
                    return Ok(TreeObject { object_name, entries });
                },
                Ok(Some((name, entry, next))) => {
                    let ghost item: ItemView = (name@, entry@);
                    proof {
                        let r = parse_entries(data@, next as int, is_sha1);
                        assert(parse_entries(data@, p as int, is_sha1) == prepend(seq![item], r));
                        match r {
                            Ok(rest) => {
                                assert(acc + (seq![item] + rest) =~= acc.push(item) + rest);
                            },
                            Err(_) => {},
                        }
                        assert(acc.push(item).drop_last() =~= acc);
                    }
                    entries.insert(name, entry);
                    proof {
                        acc = acc.push(item);
                    }
                    p = next;
                },
            }
        }
    }

    /// The bytes of a whole tree object: `tree <size>\0` and then every entry, in increasing
    /// order of name.
    pub fn entries_to_binary(entries: TreeEntries, _is_sha1: bool) -> (res: Vec<u8>)
        ensures
            res@ == tree_object_bytes(entries.list()),
    {
        let items = entries.items();
        let ghost list = entries.list();
        let mut body: Vec<u8> = Vec::new();
        let mut i: usize = 0;
        while i < items.len()
            invariant
                i <= items@.len(),
                items@.map_values(|p: (Vec<u8>, TreeEntry)| item_view(p)) == list,
                body@ == payload(list.take(i as int)),
            decreases items@.len() - i,
        {
            let bin = items[i].1.to_binary(items[i].0.as_slice());
            proof {
                assert(list[i as int] == item_view(items@[i as int]));
                assert(list.take(i + 1).drop_last() =~= list.take(i as int));
                assert(list.take(i + 1).last() == list[i as int]);
            }
            append_bytes(&mut body, bin.as_slice());
            i = i + 1;
        }
        proof {
            assert(list.take(items@.len() as int) =~= list);
        }
        let mut content: Vec<u8> = vec![116u8, 114, 101, 101, 32];
        let size = decimal(body.len());
        append_bytes(&mut content, size.as_slice());
        content.push(0u8);
        append_bytes(&mut content, body.as_slice());
        proof {
            assert(content@ =~= tree_object_bytes(list));
        }
        content
    }
}

/// The entries of `s` after its first one come after the first entry's bytes.
pub proof fn lemma_payload_first(s: Seq<ItemView>)
    requires
        s.len() > 0,
    ensures
        payload(s) == entry_bytes(s[0].1, s[0].0) + payload(s.drop_first()),
    decreases s.len(),
{
    if s.len() > 1 {
        lemma_payload_first(s.drop_last());
        assert(s.drop_last().drop_first() =~= s.drop_first().drop_last());
        assert(s.drop_first().last() == s.last());
        assert(s.drop_last()[0] == s[0]);
    } else {
        assert(s.drop_last() =~= Seq::<ItemView>::empty());
        assert(s.drop_first() =~= Seq::<ItemView>::empty());
    }
}

/// Whether every name in `s` is free of NUL bytes and every hash has the length that
/// `is_sha1` asks for: what an entry needs to read back as it was written.
pub open spec fn writable_items(s: Seq<ItemView>, is_sha1: bool) -> bool {
    forall|i: int|
        0 <= i < s.len() ==> !(#[trigger] s[i]).0.contains(0u8) && s[i].1.1.len() == hash_len(
            is_sha1,
        )
}

/// Entries written one after another up to the end of the data read back as the same list.
pub proof fn lemma_parse_payload(data: Seq<u8>, pos: int, s: Seq<ItemView>, is_sha1: bool)
    requires
        0 <= pos <= data.len(),
        data.subrange(pos, data.len() as int) == payload(s),
        writable_items(s, is_sha1),
    ensures
        parse_entries(data, pos, is_sha1) == Ok::<Seq<ItemView>, ObjectError>(s),
    decreases s.len(),
{
    if s.len() == 0 {
        assert(data.subrange(pos, data.len() as int).len() == 0);
        crate::object::lemma_find_byte(data, pos, 32u8);
        assert(s =~= Seq::<ItemView>::empty());
    } else {
        lemma_payload_first(s);
        let bin = entry_bytes(s[0].1, s[0].0);
        let rest = s.drop_first();
        let next = pos + bin.len();
        assert(payload(s).len() == bin.len() + payload(rest).len());
        assert(next <= data.len());
        assert(data.subrange(pos, next) =~= bin) by {
            assert forall|j: int| 0 <= j < bin.len() implies data.subrange(pos, next)[j] == bin[j] by {
                assert(data[pos + j] == data.subrange(pos, data.len() as int)[j]);
                assert(payload(s)[j] == bin[j]);
            }
        }
        lemma_entry_round_trip(data, pos, s[0].0, s[0].1, is_sha1);
        assert(data.subrange(next, data.len() as int) =~= payload(rest)) by {
            assert forall|j: int| 0 <= j < payload(rest).len() implies data.subrange(next, data.len() as int)[j] == payload(rest)[j] by {
                assert(data[next + j] == data.subrange(pos, data.len() as int)[bin.len() + j]);
                assert(payload(s)[bin.len() + j] == payload(rest)[j]);
            }
        }
        assert forall|i: int| 0 <= i < rest.len() implies !(#[trigger] rest[i]).0.contains(0u8)
            && rest[i].1.1.len() == hash_len(is_sha1) by {
            assert(rest[i] == s[i + 1]);
        }
        lemma_parse_payload(data, next, rest, is_sha1);
        assert(seq![(s[0].0, s[0].1)] + rest =~= s);
    }
}

/// A tree object written by `entries_to_binary` reads back as the same entries: its header names
/// the type `tree`, the size ends at the first NUL, and the entries after it are the entries that
/// were written, provided every name is free of NUL bytes and every hash has the length that
/// `is_sha1` asks for.
pub proof fn lemma_tree_round_trip(s: Seq<ItemView>, is_sha1: bool)
    requires
        writable_items(s, is_sha1),
    ensures
        crate::object::object_type_word(tree_object_bytes(s), 0) == seq![116u8, 114, 101, 101],
        crate::object::read_until_end(tree_object_bytes(s), 0, 32) == 5,
        crate::object::read_until_end(tree_object_bytes(s), 5, 0) == tree_header(payload(s).len()).len(),
        parse_entries(tree_object_bytes(s), tree_header(payload(s).len()).len() as int, is_sha1)
            == Ok::<Seq<ItemView>, ObjectError>(s),
{
    let data = tree_object_bytes(s);
    let d = decimal_text(payload(s).len());
    let h = tree_header(payload(s).len()).len() as int;
    lemma_decimal_text_digits(payload(s).len());
    assert(data[4] == 32u8);
    crate::object::lemma_find_byte_at(data, 0, 32u8, 4);
    assert(crate::object::object_type_word(data, 0) =~= seq![116u8, 114, 101, 101]);
    assert forall|j: int| 5 <= j < h - 1 implies data[j] != 0u8 by {
        assert(data[j] == d[j - 5]);
    }
    assert(data[h - 1] == 0u8);
    crate::object::lemma_find_byte_at(data, 5, 0u8, h - 1);
    assert(data.subrange(h, data.len() as int) =~= payload(s));
    lemma_parse_payload(data, h, s, is_sha1);
}

} // verus!
