use vstd::prelude::*;
use vstd::string::StrSliceExecFns;
use vstd::string::StringExecFns;

use crate::error::Error;
use crate::strutil::{lemma_lex_le_total, lemma_lex_le_trans, lex_le, lex_le_str, starts_with_str, str_eq};

verus! {

/// One stored object or implicit folder: the id is generated at creation and
/// is what the bytes live under on disk; the name is the user-visible logical
/// path; a `None` physical path marks a pure folder; deletion is a soft
/// marker, never physical removal.
#[derive(Debug)]
pub struct File {
    pub id: u128,
    pub name: String,
    pub path: Option<String>,
    pub owned_by: u128,
    pub edited_by: Option<u128>,
    pub created_at: i64,
    pub edited_at: Option<i64>,
    pub deleted_by: Option<u128>,
    pub deleted_at: Option<i64>,
}

/// The mathematical value of a `File`.
pub struct FileView {
    pub id: u128,
    pub name: Seq<char>,
    pub path: Option<Seq<char>>,
    pub owned_by: u128,
    pub edited_by: Option<u128>,
    pub created_at: i64,
    pub edited_at: Option<i64>,
    pub deleted_by: Option<u128>,
    pub deleted_at: Option<i64>,
}

impl View for File {
    type V = FileView;

    open spec fn view(&self) -> FileView {
        FileView {
            id: self.id,
            name: self.name@,
            path: match self.path {
                Some(p) => Some(p@),
                None => None,
            },
            owned_by: self.owned_by,
            edited_by: self.edited_by,
            created_at: self.created_at,
            edited_at: self.edited_at,
            deleted_by: self.deleted_by,
            deleted_at: self.deleted_at,
        }
    }
}

impl File {
    /// A field-for-field copy.
    pub fn duplicate(&self) -> (r: File)
        ensures
            r@ == self@,
    {
        File {
            id: self.id,
            name: self.name.clone(),
            path: match &self.path {
                Some(p) => Some(p.clone()),
                None => None,
            },
            owned_by: self.owned_by,
            edited_by: self.edited_by,
            created_at: self.created_at,
            edited_at: self.edited_at,
            deleted_by: self.deleted_by,
            deleted_at: self.deleted_at,
        }
    }
}

/// A record that no soft deletion has marked.
pub open spec fn live(f: FileView) -> bool {
    f.deleted_by is None && f.deleted_at is None
}

/// The first record with the given id, scanning in creation order.
pub open spec fn find_file(s: Seq<FileView>, id: u128) -> Option<FileView>
    decreases s.len(),
{
    if s.len() == 0 {
        None
    } else if s[0].id == id {
        Some(s[0])
    } else {
        find_file(s.drop_first(), id)
    }
}

/// The records with the name of `id`'s record replaced.
pub open spec fn with_file_name(s: Seq<FileView>, id: u128, name: Seq<char>) -> Seq<FileView> {
    s.map_values(
        |f: FileView|
            if f.id == id {
                FileView { name, ..f }
            } else {
                f
            },
    )
}

/// The records with the physical path of `id`'s record replaced.
pub open spec fn with_file_path(s: Seq<FileView>, id: u128, path: Option<Seq<char>>) -> Seq<
    FileView,
> {
    s.map_values(
        |f: FileView|
            if f.id == id {
                FileView { path, ..f }
            } else {
                f
            },
    )
}

/// The records with the edit markers of `id`'s record set.
pub open spec fn with_file_edit(s: Seq<FileView>, id: u128, user: u128, now: i64) -> Seq<FileView> {
    s.map_values(
        |f: FileView|
            if f.id == id {
                FileView { edited_by: Some(user), edited_at: Some(now), ..f }
            } else {
                f
            },
    )
}

/// The records with the soft-deletion markers of `id`'s record set.
pub open spec fn with_file_delete(s: Seq<FileView>, id: u128, user: u128, now: i64) -> Seq<
    FileView,
> {
    s.map_values(
        |f: FileView|
            if f.id == id {
                FileView { deleted_by: Some(user), deleted_at: Some(now), ..f }
            } else {
                f
            },
    )
}

/// A character a listed path segment may consist of: a word character or a
/// dot, the class the listing queries match one further segment with.
pub open spec fn is_word_char(c: char) -> bool {
    let u = c as u32;
    (97 <= u && u <= 122) || (65 <= u && u <= 90) || (48 <= u && u <= 57) || u == 95 || u == 46
}

/// `name` lies exactly one segment below `folder`: it extends it with `/`,
/// one nonempty run of word characters or dots, and nothing further (in
/// particular no further `/`).
pub open spec fn is_direct_child(folder: Seq<char>, name: Seq<char>) -> bool {
    &&& name.len() > folder.len() + 1
    &&& name.subrange(0, folder.len() as int) == folder
    &&& name[folder.len() as int] == '/'
    &&& forall|i: int| folder.len() + 1 <= i < name.len() ==> is_word_char(#[trigger] name[i])
}

/// A staged name — one with no separator in it — is no folder's direct child,
/// so a record that failed to commit is invisible to every folder listing.
pub proof fn lemma_slash_free_not_listed(folder: Seq<char>, name: Seq<char>)
    requires
        crate::path::slash_free(name),
    ensures
        !is_direct_child(folder, name),
{
    if is_direct_child(folder, name) {
        assert(name[folder.len() as int] == '/');
    }
}

/// A name built as `folder`, a separator, and one nonempty run of word
/// characters or dots lies exactly one segment below `folder`.
pub proof fn lemma_child_is_direct(folder: Seq<char>, seg: Seq<char>)
    requires
        seg.len() > 0,
        forall|i: int| 0 <= i < seg.len() ==> is_word_char(#[trigger] seg[i]),
    ensures
        is_direct_child(folder, folder + seq!['/'] + seg),
{
    let name = folder + seq!['/'] + seg;
    assert(name.subrange(0, folder.len() as int) =~= folder);
    assert(name[folder.len() as int] == '/');
    assert forall|i: int| folder.len() + 1 <= i < name.len() implies is_word_char(
        #[trigger] name[i],
    ) by {
        assert(name[i] == seg[i - folder.len() - 1]);
    }
}

/// A name that goes on below a further separator — `folder`, a separator, a
/// segment, another separator, and anything more — is not a direct child of
/// `folder`: listing a folder never reaches into its subfolders.
pub proof fn lemma_deeper_is_not_direct(folder: Seq<char>, seg: Seq<char>, rest: Seq<char>)
    ensures
        !is_direct_child(folder, folder + seq!['/'] + seg + seq!['/'] + rest),
{
    let name = folder + seq!['/'] + seg + seq!['/'] + rest;
    let slash_at = folder.len() + 1 + seg.len();
    assert(name[slash_at as int] == '/');
    assert(!is_word_char('/')) by {
        assert('/' as u32 == 47);
    }
}

/// The elements of `s` that `p` keeps, in order.
pub open spec fn keep(s: Seq<FileView>, p: spec_fn(FileView) -> bool) -> Seq<FileView>
    decreases s.len(),
{
    if s.len() == 0 {
        Seq::<FileView>::empty()
    } else {
        let rest = keep(s.drop_last(), p);
        if p(s.last()) {
            rest.push(s.last())
        } else {
            rest
        }
    }
}

/// The live records of `owner` whose name is a direct child of `folder`, in
/// creation order.
pub open spec fn folder_listing(s: Seq<FileView>, owner: u128, folder: Seq<char>) -> Seq<FileView> {
    keep(
        s,
        (|f: FileView| live(f) && f.owned_by == owner && is_direct_child(folder, f.name)),
    )
}

/// The live records of `owner` whose name begins with `like`, in creation
/// order.
pub open spec fn prefix_listing(s: Seq<FileView>, owner: u128, like: Seq<char>) -> Seq<FileView> {
    keep(
        s,
        (|f: FileView|
            live(f) && f.owned_by == owner && f.name.len() >= like.len() && f.name.subrange(
                0,
                like.len() as int,
            ) == like),
    )
}

/// Every pair of positions of the listing is in name order.
pub open spec fn sorted_by_name(s: Seq<FileView>) -> bool {
    forall|i: int, j: int|
        0 <= i < j < s.len() ==> lex_le(#[trigger] s[i].name, #[trigger] s[j].name)
}

/// Insertion into a name-ordered listing: the record goes after every record
/// whose name does not come later, so records with equal names keep their
/// relative order.
pub open spec fn sorted_insert(s: Seq<FileView>, f: FileView) -> Seq<FileView>
    decreases s.len(),
{
    if s.len() == 0 {
        seq![f]
    } else if lex_le(s[0].name, f.name) {
        seq![s[0]] + sorted_insert(s.drop_first(), f)
    } else {
        seq![f] + s
    }
}

/// The listing rearranged into name order by insertion.
pub open spec fn sort_by_name(s: Seq<FileView>) -> Seq<FileView>
    decreases s.len(),
{
    if s.len() == 0 {
        Seq::<FileView>::empty()
    } else {
        sorted_insert(sort_by_name(s.drop_last()), s.last())
    }
}

/// Whether a caller-supplied sort key asks for name order: the explicit
/// `name` key, or no key at all (name is the default).
pub open spec fn wants_name_order(key: Option<Seq<char>>) -> bool {
    key is None || key.unwrap() == "name"@
}

/// The prefix listing in the caller's order: name order for the `name` key
/// (the default), creation order for any other key, as the backing query's
/// parameterized sort left it.
pub open spec fn ordered_listing(
    s: Seq<FileView>,
    owner: u128,
    like: Seq<char>,
    key: Option<Seq<char>>,
) -> Seq<FileView> {
    if wants_name_order(key) {
        sort_by_name(prefix_listing(s, owner, like))
    } else {
        prefix_listing(s, owner, like)
    }
}

/// Inserting at the position the order picks is one sequence insertion.
proof fn lemma_sorted_insert_at(s: Seq<FileView>, f: FileView, pos: int)
    requires
        0 <= pos <= s.len(),
        forall|j: int| 0 <= j < pos ==> lex_le(#[trigger] s[j].name, f.name),
        pos < s.len() ==> !lex_le(s[pos].name, f.name),
    ensures
        sorted_insert(s, f) =~= s.insert(pos, f),
    decreases s.len(),
{
    if s.len() == 0 {
        assert(sorted_insert(s, f) =~= s.insert(0, f));
    } else if pos == 0 {
        assert(!lex_le(s[0].name, f.name));
        assert(sorted_insert(s, f) =~= seq![f] + s);
        assert(seq![f] + s =~= s.insert(0, f));
    } else {
        assert(lex_le(s[0].name, f.name));
        let rest = s.drop_first();
        assert forall|j: int| 0 <= j < pos - 1 implies lex_le(#[trigger] rest[j].name, f.name) by {
            assert(rest[j] == s[j + 1]);
        }
        if pos - 1 < rest.len() {
            assert(rest[pos - 1] == s[pos]);
        }
        lemma_sorted_insert_at(rest, f, pos - 1);
        assert(sorted_insert(s, f) =~= seq![s[0]] + rest.insert(pos - 1, f));
        assert(seq![s[0]] + rest.insert(pos - 1, f) =~= s.insert(pos, f));
    }
}

/// Every element after insertion is the inserted record or one of the old
/// ones.
proof fn lemma_sorted_insert_elems(s: Seq<FileView>, f: FileView)
    ensures
        sorted_insert(s, f).len() == s.len() + 1,
        forall|j: int|
            0 <= j < sorted_insert(s, f).len() ==> (#[trigger] sorted_insert(s, f)[j]) == f || (
            exists|u: int| 0 <= u < s.len() && sorted_insert(s, f)[j] == s[u]),
    decreases s.len(),
{
    if s.len() == 0 {
    } else if lex_le(s[0].name, f.name) {
        let rest = s.drop_first();
        lemma_sorted_insert_elems(rest, f);
        assert forall|j: int|
            0 <= j < sorted_insert(s, f).len() implies (#[trigger] sorted_insert(s, f)[j]) == f
            || (exists|u: int| 0 <= u < s.len() && sorted_insert(s, f)[j] == s[u]) by {
            if j == 0 {
                assert(sorted_insert(s, f)[0] == s[0]);
            } else {
                assert(sorted_insert(s, f)[j] == sorted_insert(rest, f)[j - 1]);
                if sorted_insert(rest, f)[j - 1] != f {
                    let u = choose|u: int|
                        0 <= u < rest.len() && sorted_insert(rest, f)[j - 1] == rest[u];
                    assert(sorted_insert(s, f)[j] == s[u + 1]);
                }
            }
        }
    } else {
        assert forall|j: int|
            0 <= j < sorted_insert(s, f).len() implies (#[trigger] sorted_insert(s, f)[j]) == f
            || (exists|u: int| 0 <= u < s.len() && sorted_insert(s, f)[j] == s[u]) by {
            if j > 0 {
                assert(sorted_insert(s, f)[j] == s[j - 1]);
            }
        }
    }
}

/// Insertion keeps a listing in name order.
proof fn lemma_sorted_insert_sorted(s: Seq<FileView>, f: FileView)
    requires
        sorted_by_name(s),
    ensures
        sorted_by_name(sorted_insert(s, f)),
    decreases s.len(),
{
    if s.len() == 0 {
    } else if lex_le(s[0].name, f.name) {
        let rest = s.drop_first();
        assert forall|i: int, j: int| 0 <= i < j < rest.len() implies lex_le(
            #[trigger] rest[i].name,
            #[trigger] rest[j].name,
        ) by {
            assert(rest[i] == s[i + 1] && rest[j] == s[j + 1]);
        }
        lemma_sorted_insert_sorted(rest, f);
        lemma_sorted_insert_elems(rest, f);
        let out = sorted_insert(s, f);
        assert forall|i: int, j: int| 0 <= i < j < out.len() implies lex_le(
            #[trigger] out[i].name,
            #[trigger] out[j].name,
        ) by {
            if i == 0 {
                assert(out[0] == s[0]);
                assert(out[j] == sorted_insert(rest, f)[j - 1]);
                if sorted_insert(rest, f)[j - 1] == f {
                } else {
                    let u = choose|u: int|
                        0 <= u < rest.len() && sorted_insert(rest, f)[j - 1] == rest[u];
                    assert(lex_le(s[0].name, s[u + 1].name));
                }
            } else {
                assert(out[i] == sorted_insert(rest, f)[i - 1]);
                assert(out[j] == sorted_insert(rest, f)[j - 1]);
            }
        }
    } else {
        lemma_lex_le_total(s[0].name, f.name);
        let out = sorted_insert(s, f);
        assert forall|i: int, j: int| 0 <= i < j < out.len() implies lex_le(
            #[trigger] out[i].name,
            #[trigger] out[j].name,
        ) by {
            if i == 0 {
                assert(out[0] == f);
                assert(out[j] == s[j - 1]);
                if j - 1 > 0 {
                    lemma_lex_le_trans(f.name, s[0].name, s[j - 1].name);
                }
            } else {
                assert(out[i] == s[i - 1] && out[j] == s[j - 1]);
            }
        }
    }
}

/// Insertion lands at some position of the old listing.
proof fn lemma_sorted_insert_shape(s: Seq<FileView>, f: FileView)
    ensures
        exists|p: int| 0 <= p <= s.len() && sorted_insert(s, f) =~= s.insert(p, f),
    decreases s.len(),
{
    if s.len() == 0 {
        assert(sorted_insert(s, f) =~= s.insert(0, f));
    } else if lex_le(s[0].name, f.name) {
        let rest = s.drop_first();
        lemma_sorted_insert_shape(rest, f);
        let p = choose|p: int| 0 <= p <= rest.len() && sorted_insert(rest, f) =~= rest.insert(p, f);
        assert(sorted_insert(s, f) =~= seq![s[0]] + rest.insert(p, f));
        assert(seq![s[0]] + rest.insert(p, f) =~= s.insert(p + 1, f));
    } else {
        assert(sorted_insert(s, f) =~= s.insert(0, f));
    }
}

/// Sorting neither drops, adds nor duplicates a record: the sorted listing is
/// the same multiset, in name order.
pub proof fn lemma_sort_by_name_ensures(s: Seq<FileView>)
    ensures
        sort_by_name(s).to_multiset() =~= s.to_multiset(),
        sort_by_name(s).len() == s.len(),
        sorted_by_name(sort_by_name(s)),
    decreases s.len(),
{
    broadcast use vstd::seq_lib::group_to_multiset_ensures;

    if s.len() > 0 {
        lemma_sort_by_name_ensures(s.drop_last());
        let t = sort_by_name(s.drop_last());
        lemma_sorted_insert_sorted(t, s.last());
        lemma_sorted_insert_shape(t, s.last());
        let p = choose|p: int| 0 <= p <= t.len() && sorted_insert(t, s.last()) =~= t.insert(
            p,
            s.last(),
        );
        assert(t.insert(p, s.last()).to_multiset() =~= t.to_multiset().insert(s.last()));
        assert(s.drop_last().push(s.last()) =~= s);
        assert(s.drop_last().push(s.last()).to_multiset() =~= s.drop_last().to_multiset().insert(
            s.last(),
        ));
    }
}

/// The window `offset..offset+limit` of a listing, clipped to its length.
pub open spec fn page(s: Seq<FileView>, limit: int, offset: int) -> Seq<FileView>
    recommends
        limit >= 0,
        offset >= 0,
{
    let start = if offset > s.len() {
        s.len() as int
    } else {
        offset
    };
    let end = if offset + limit > s.len() {
        s.len() as int
    } else {
        offset + limit
    };
    s.subrange(start, end)
}

/// The file record table: rows in creation order, with ids handed out from a
/// monotone counter, the way the backing store's id generator does.
pub struct FileStore {
    next_id: u128,
    records: Vec<File>,
}

impl View for FileStore {
    type V = Seq<FileView>;

    closed spec fn view(&self) -> Seq<FileView> {
        self.records@.map_values(|f: File| f@)
    }
}

impl FileStore {
    pub closed spec fn spec_next_id(&self) -> u128 {
        self.next_id
    }

    /// Every id was handed out by the counter, and ids increase with creation
    /// order, so they are unique.
    pub open spec fn wf(&self) -> bool {
        &&& forall|k: int| 0 <= k < self@.len() ==> (#[trigger] self@[k].id) < self.spec_next_id()
        &&& forall|j: int, k: int| 0 <= j < k < self@.len() ==> self@[j].id < self@[k].id
    }

    pub fn new() -> (r: FileStore)
        ensures
            r@ =~= Seq::<FileView>::empty(),
            r.wf(),
            r.spec_next_id() == 1,
    {
        let r = FileStore { next_id: 1, records: Vec::new() };
        proof {
            assert(r@ =~= Seq::<FileView>::empty());
        }
        r
    }

    /// Creates a record owned by `owner_id`, with no edit or deletion marks,
    /// and returns its fresh id. Fails only when the id space is exhausted.
    pub fn create(&mut self, name: &str, path: Option<&str>, owner_id: u128, now: i64) -> (r:
        Result<u128, Error>)
        requires
            old(self).wf(),
        ensures
            final(self).wf(),
            old(self).spec_next_id() == u128::MAX <==> r is Err,
            r is Err ==> r.unwrap_err() is Internal && final(self)@ == old(self)@ && final(self).spec_next_id() == old(self).spec_next_id(),
            r is Ok ==> {
                &&& r.unwrap() == old(self).spec_next_id()
                &&& final(self).spec_next_id() == old(self).spec_next_id() + 1
                &&& final(self)@ =~= old(self)@.push(
                    FileView {
                        id: old(self).spec_next_id(),
                        name: name@,
                        path: match path {
                            Some(p) => Some(p@),
                            None => None,
                        },
                        owned_by: owner_id,
                        edited_by: None,
                        created_at: now,
                        edited_at: None,
                        deleted_by: None,
                        deleted_at: None,
                    },
                )
            },
    {
        if self.next_id == u128::MAX {
            return Err(Error::Internal(String::from_str("Record id space exhausted")));
        }
        let id = self.next_id;
        let record = File {
            id,
            name: String::from_str(name),
            path: match path {
                Some(p) => Some(String::from_str(p)),
                None => None,
            },
            owned_by: owner_id,
            edited_by: None,
            created_at: now,
            edited_at: None,
            deleted_by: None,
            deleted_at: None,
        };
        proof {
            assert(self@.push(record@) =~= self.records@.push(record).map_values(|f: File| f@));
        }
        self.records.push(record);
        self.next_id = id + 1;
        Ok(id)
    }

    fn find_index(&self, id: u128) -> (r: Option<usize>)
        ensures
            r is Some <==> find_file(self@, id) is Some,
            r is Some ==> 0 <= r.unwrap() < self@.len() && self@[r.unwrap() as int].id == id
                && find_file(self@, id) == Some(self@[r.unwrap() as int]),
    {
        let n = self.records.len();
        let mut k: usize = 0;
        proof {
            assert(self@.skip(0) =~= self@);
        }
        while k < n
            invariant
                n == self.records@.len(),
                0 <= k <= n,
                find_file(self@, id) == find_file(self@.skip(k as int), id),
            decreases n - k,
        {
            proof {
                assert(self@.skip(k as int)[0] == self@[k as int]);
                assert(self@.skip(k as int).drop_first() =~= self@.skip(k as int + 1));
            }
            if self.records[k].id == id {
                return Some(k);
            }
            k = k + 1;
        }
        proof {
            assert(self@.skip(n as int) =~= Seq::<FileView>::empty());
        }
        None
    }

    /// The record with the given id, if any.
    pub fn find_by_id(&self, file_id: u128) -> (r: Option<File>)
        ensures
            r is Some <==> find_file(self@, file_id) is Some,
            r is Some ==> r.unwrap()@ == find_file(self@, file_id).unwrap(),
    {
        match self.find_index(file_id) {
            Some(i) => Some(self.records[i].duplicate()),
            None => None,
        }
    }

    /// Replaces one whole record; the private helper behind the row updates.
    fn set_at(&mut self, i: usize, replacement: File)
        requires
            old(self).wf(),
            0 <= i < old(self)@.len(),
            replacement@.id == old(self)@[i as int].id,
        ensures
            final(self).wf(),
            final(self)@ =~= old(self)@.update(i as int, replacement@),
            final(self).spec_next_id() == old(self).spec_next_id(),
    {
        let ghost prev = self@;
        self.records.set(i, replacement);
        proof {
            assert(self@ =~= prev.update(i as int, replacement@));
        }
    }

    /// Renames the record with the given id; a missing id leaves the store
    /// unchanged, as an update that matches no row does.
    pub fn rename(&mut self, file_id: u128, name: &str)
        requires
            old(self).wf(),
        ensures
            final(self).wf(),
            final(self)@ =~= with_file_name(old(self)@, file_id, name@),
            final(self).spec_next_id() == old(self).spec_next_id(),
    {
        let ghost prev = self@;
        if let Some(i) = self.find_index(file_id) {
            let f = &self.records[i];
            let replacement = File {
                id: f.id,
                name: String::from_str(name),
                path: match &f.path {
                    Some(p) => Some(p.clone()),
                    None => None,
                },
                owned_by: f.owned_by,
                edited_by: f.edited_by,
                created_at: f.created_at,
                edited_at: f.edited_at,
                deleted_by: f.deleted_by,
                deleted_at: f.deleted_at,
            };
            self.set_at(i, replacement);
            proof {
                lemma_update_is_map(prev, i as int, self@, with_file_name(prev, file_id, name@));
            }
        } else {
            proof {
                lemma_find_file_absent(prev, file_id);
                assert(self@ =~= with_file_name(prev, file_id, name@));
            }
        }
    }

    /// Points the record with the given id at a physical location ("stage"
    /// and "commit" transitions); a missing id leaves the store unchanged.
    pub fn reposition(&mut self, file_id: u128, path: &str)
        requires
            old(self).wf(),
        ensures
            final(self).wf(),
            final(self)@ =~= with_file_path(old(self)@, file_id, Some(path@)),
            final(self).spec_next_id() == old(self).spec_next_id(),
    {
        let ghost prev = self@;
        if let Some(i) = self.find_index(file_id) {
            let f = &self.records[i];
            let replacement = File {
                id: f.id,
                name: f.name.clone(),
                path: Some(String::from_str(path)),
                owned_by: f.owned_by,
                edited_by: f.edited_by,
                created_at: f.created_at,
                edited_at: f.edited_at,
                deleted_by: f.deleted_by,
                deleted_at: f.deleted_at,
            };
            self.set_at(i, replacement);
            proof {
                lemma_update_is_map(
                    prev,
                    i as int,
                    self@,
                    with_file_path(prev, file_id, Some(path@)),
                );
            }
        } else {
            proof {
                lemma_find_file_absent(prev, file_id);
                assert(self@ =~= with_file_path(prev, file_id, Some(path@)));
            }
        }
    }

    /// Marks the record as last edited by `user_id` now; a missing id leaves
    /// the store unchanged.
    pub fn edit(&mut self, file_id: u128, user_id: u128, now: i64)
        requires
            old(self).wf(),
        ensures
            final(self).wf(),
            final(self)@ =~= with_file_edit(old(self)@, file_id, user_id, now),
            final(self).spec_next_id() == old(self).spec_next_id(),
    {
        let ghost prev = self@;
        if let Some(i) = self.find_index(file_id) {
            let f = &self.records[i];
            let replacement = File {
                id: f.id,
                name: f.name.clone(),
                path: match &f.path {
                    Some(p) => Some(p.clone()),
                    None => None,
                },
                owned_by: f.owned_by,
                edited_by: Some(user_id),
                created_at: f.created_at,
                edited_at: Some(now),
                deleted_by: f.deleted_by,
                deleted_at: f.deleted_at,
            };
            self.set_at(i, replacement);
            proof {
                lemma_update_is_map(
                    prev,
                    i as int,
                    self@,
                    with_file_edit(prev, file_id, user_id, now),
                );
            }
        } else {
            proof {
                lemma_find_file_absent(prev, file_id);
                assert(self@ =~= with_file_edit(prev, file_id, user_id, now));
            }
        }
    }

    /// Marks the record as deleted by `user_id` now (a soft marker: the row
    /// stays, listings exclude it); a missing id leaves the store unchanged.
    pub fn delete(&mut self, file_id: u128, user_id: u128, now: i64)
        requires
            old(self).wf(),
        ensures
            final(self).wf(),
            final(self)@ =~= with_file_delete(old(self)@, file_id, user_id, now),
            final(self).spec_next_id() == old(self).spec_next_id(),
    {
        let ghost prev = self@;
        if let Some(i) = self.find_index(file_id) {
            let f = &self.records[i];
            let replacement = File {
                id: f.id,
                name: f.name.clone(),
                path: match &f.path {
                    Some(p) => Some(p.clone()),
                    None => None,
                },
                owned_by: f.owned_by,
                edited_by: f.edited_by,
                created_at: f.created_at,
                edited_at: f.edited_at,
                deleted_by: Some(user_id),
                deleted_at: Some(now),
            };
            self.set_at(i, replacement);
            proof {
                lemma_update_is_map(
                    prev,
                    i as int,
                    self@,
                    with_file_delete(prev, file_id, user_id, now),
                );
            }
        } else {
            proof {
                lemma_find_file_absent(prev, file_id);
                assert(self@ =~= with_file_delete(prev, file_id, user_id, now));
            }
        }
    }

    /// The live records of `owner_id` lying exactly one segment below the
    /// folder named `name`, in creation order.
    pub fn folder(&self, owner_id: u128, name: &str) -> (r: Vec<File>)
        ensures
            r@.map_values(|f: File| f@) =~= folder_listing(self@, owner_id, name@),
    {
        let n = self.records.len();
        let mut out: Vec<File> = Vec::new();
        let mut k: usize = 0;
        proof {
            assert(self@.subrange(0, 0) =~= Seq::<FileView>::empty());
        }
        while k < n
            invariant
                n == self.records@.len(),
                0 <= k <= n,
                out@.map_values(|f: File| f@) =~= folder_listing(
                    self@.subrange(0, k as int),
                    owner_id,
                    name@,
                ),
            decreases n - k,
        {
            let ghost pre = self@.subrange(0, k as int);
            let ghost pre2 = self@.subrange(0, k as int + 1);
            proof {
                assert(pre2.drop_last() =~= pre);
                assert(pre2.last() == self@[k as int]);
            }
            let f = &self.records[k];
            let is_live = f.deleted_by.is_none() && f.deleted_at.is_none();
            if is_live && f.owned_by == owner_id && check_direct_child(name, f.name.as_str()) {
                let kept = f.duplicate();
                proof {
                    assert(out@.push(kept).map_values(|f: File| f@) =~= out@.map_values(
                        |f: File| f@,
                    ).push(kept@));
                }
                out.push(kept);
            }
            k = k + 1;
        }
        proof {
            assert(self@.subrange(0, n as int) =~= self@);
        }
        out
    }

    /// The live records of `owner_id` with no leading path segment: the
    /// direct children of the root, in creation order.
    pub fn root(&self, owner_id: u128) -> (r: Vec<File>)
        ensures
            r@.map_values(|f: File| f@) =~= folder_listing(self@, owner_id, Seq::<char>::empty()),
    {
        proof {
            reveal_strlit("");
            assert(""@ =~= Seq::<char>::empty());
        }
        self.folder(owner_id, "")
    }

    /// The live records of `owner_id` whose name begins with `like`, in name
    /// order when the caller's sort key is `name` or absent (the default),
    /// and in creation order for any other key.
    pub fn find_all_files(&self, like: &str, owner_id: u128, order_by: Option<&str>) -> (r: Vec<
        File,
    >)
        ensures
            r@.map_values(|f: File| f@) =~= ordered_listing(
                self@,
                owner_id,
                like@,
                match order_by {
                    Some(s) => Some(s@),
                    None => None,
                },
            ),
    {
        let base = self.collect_prefix(like, owner_id);
        let by_name: bool = match order_by {
            None => true,
            Some(key) => str_eq(key, "name"),
        };
        if by_name {
            sort_files_by_name(base)
        } else {
            base
        }
    }

    /// The live records of `owner_id` whose name begins with `like`, in
    /// creation order.
    fn collect_prefix(&self, like: &str, owner_id: u128) -> (r: Vec<File>)
        ensures
            r@.map_values(|f: File| f@) =~= prefix_listing(self@, owner_id, like@),
    {
        let n = self.records.len();
        let mut out: Vec<File> = Vec::new();
        let mut k: usize = 0;
        proof {
            assert(self@.subrange(0, 0) =~= Seq::<FileView>::empty());
        }
        while k < n
            invariant
                n == self.records@.len(),
                0 <= k <= n,
                out@.map_values(|f: File| f@) =~= prefix_listing(
                    self@.subrange(0, k as int),
                    owner_id,
                    like@,
                ),
            decreases n - k,
        {
            let ghost pre = self@.subrange(0, k as int);
            let ghost pre2 = self@.subrange(0, k as int + 1);
            proof {
                assert(pre2.drop_last() =~= pre);
                assert(pre2.last() == self@[k as int]);
            }
            let f = &self.records[k];
            let is_live = f.deleted_by.is_none() && f.deleted_at.is_none();
            if is_live && f.owned_by == owner_id && starts_with_str(f.name.as_str(), like) {
                let kept = f.duplicate();
                proof {
                    assert(out@.push(kept).map_values(|f: File| f@) =~= out@.map_values(
                        |f: File| f@,
                    ).push(kept@));
                }
                out.push(kept);
            }
            k = k + 1;
        }
        proof {
            assert(self@.subrange(0, n as int) =~= self@);
        }
        out
    }

    /// One page of the ordered prefix listing: `limit` records starting
    /// `offset` into it, both clipped to what is there.
    pub fn find_paged_files(
        &self,
        like: &str,
        owner_id: u128,
        order_by: &str,
        limit: i64,
        offset: i64,
    ) -> (r: Vec<File>)
        requires
            0 <= limit <= usize::MAX,
            0 <= offset <= usize::MAX,
        ensures
            r@.map_values(|f: File| f@) =~= page(
                ordered_listing(self@, owner_id, like@, Some(order_by@)),
                limit as int,
                offset as int,
            ),
    {
        let all = self.find_all_files(like, owner_id, Some(order_by));
        let ghost full = ordered_listing(self@, owner_id, like@, Some(order_by@));
        let mut out: Vec<File> = Vec::new();
        let start: usize = if offset as usize > all.len() {
            all.len()
        } else {
            offset as usize
        };
        let end: usize = if limit as usize > all.len() - start {
            all.len()
        } else {
            start + limit as usize
        };
        let mut k: usize = start;
        proof {
            assert(out@.map_values(|f: File| f@) =~= full.subrange(start as int, start as int));
        }
        while k < end
            invariant
                all@.map_values(|f: File| f@) =~= full,
                start <= k <= end <= all@.len(),
                out@.map_values(|f: File| f@) =~= full.subrange(start as int, k as int),
            decreases end - k,
        {
            let kept = all[k].duplicate();
            proof {
                assert(out@.push(kept).map_values(|f: File| f@) =~= out@.map_values(
                    |f: File| f@,
                ).push(kept@));
                assert(full.subrange(start as int, k as int).push(full[k as int]) =~= full.subrange(
                    start as int,
                    k as int + 1,
                ));
            }
            out.push(kept);
            k = k + 1;
        }
        proof {
            assert(out@.map_values(|f: File| f@) =~= page(full, limit as int, offset as int));
        }
        out
    }
}

/// Rearranges the records into name order, matching the insertion the
/// listing order specifies.
fn sort_files_by_name(input: Vec<File>) -> (r: Vec<File>)
    ensures
        r@.map_values(|f: File| f@) =~= sort_by_name(input@.map_values(|f: File| f@)),
{
    let ghost iv = input@.map_values(|f: File| f@);
    let mut out: Vec<File> = Vec::new();
    let mut k: usize = 0;
    proof {
        assert(iv.subrange(0, 0) =~= Seq::<FileView>::empty());
        assert(out@.map_values(|f: File| f@) =~= sort_by_name(iv.subrange(0, 0)));
    }
    while k < input.len()
        invariant
            iv == input@.map_values(|f: File| f@),
            0 <= k <= input@.len(),
            out@.map_values(|f: File| f@) =~= sort_by_name(iv.subrange(0, k as int)),
        decreases input@.len() - k,
    {
        let f = input[k].duplicate();
        let ghost cur = out@.map_values(|g: File| g@);
        let mut pos: usize = 0;
        while pos < out.len() && lex_le_str(out[pos].name.as_str(), f.name.as_str())
            invariant
                cur == out@.map_values(|g: File| g@),
                f@ == iv[k as int],
                0 <= k < iv.len(),
                0 <= pos <= out@.len(),
                forall|j: int| 0 <= j < pos ==> lex_le((#[trigger] cur[j]).name, f@.name),
            decreases out@.len() - pos,
        {
            proof {
                assert(cur[pos as int].name == out@[pos as int].name@);
            }
            pos = pos + 1;
        }
        proof {
            if (pos as int) < cur.len() {
                assert(!lex_le(cur[pos as int].name, f@.name));
            }
            lemma_sorted_insert_at(cur, f@, pos as int);
        }
        out.insert(pos, f);
        proof {
            assert(out@.map_values(|g: File| g@) =~= cur.insert(pos as int, iv[k as int]));
            assert(iv.subrange(0, k as int + 1).drop_last() =~= iv.subrange(0, k as int));
            assert(iv.subrange(0, k as int + 1).last() == iv[k as int]);
            assert(out@.map_values(|g: File| g@) =~= sort_by_name(iv.subrange(0, k as int + 1)));
        }
        k = k + 1;
    }
    proof {
        assert(iv.subrange(0, iv.len() as int) =~= iv);
    }
    out
}

/// Whether `name` lies exactly one segment below `folder`.
pub fn check_direct_child(folder: &str, name: &str) -> (r: bool)
    ensures
        r == is_direct_child(folder@, name@),
{
    let f_len = folder.unicode_len();
    let n_len = name.unicode_len();
    if n_len <= f_len {
        return false;
    }
    if n_len - f_len <= 1 {
        return false;
    }
    if !starts_with_str(name, folder) {
        return false;
    }
    if name.get_char(f_len) != '/' {
        return false;
    }
    let mut i: usize = f_len + 1;
    while i < n_len
        invariant
            f_len == folder@.len(),
            n_len == name@.len(),
            f_len + 1 <= i <= n_len,
            forall|j: int| f_len + 1 <= j < i ==> is_word_char(#[trigger] name@[j]),
        decreases n_len - i,
    {
        let c = name.get_char(i);
        let u = c as u32;
        let word = (97 <= u && u <= 122) || (65 <= u && u <= 90) || (48 <= u && u <= 57) || u == 95
            || u == 46;
        if !word {
            return false;
        }
        i = i + 1;
    }
    true
}

/// Updating the one row an id names is the same as mapping the replacement
/// over all rows, when ids are unique.
proof fn lemma_update_is_map(prev: Seq<FileView>, i: int, updated: Seq<FileView>, mapped: Seq<
    FileView,
>)
    requires
        forall|j: int, k: int| 0 <= j < k < prev.len() ==> prev[j].id < prev[k].id,
        0 <= i < prev.len(),
        updated.len() == prev.len(),
        mapped.len() == prev.len(),
        forall|j: int| 0 <= j < prev.len() && j != i ==> updated[j] == prev[j],
        updated[i] == mapped[i],
        forall|j: int| 0 <= j < prev.len() && prev[j].id != prev[i].id ==> mapped[j] == prev[j],
    ensures
        updated =~= mapped,
{
    assert forall|j: int| 0 <= j < prev.len() implies updated[j] == mapped[j] by {
        if j != i {
            if j < i {
                assert(prev[j].id < prev[i].id);
            } else {
                assert(prev[i].id < prev[j].id);
            }
        }
    }
}

/// With unique ids, the record at any index carrying `id` is what the find
/// reports.
pub proof fn lemma_find_file_unique(s: Seq<FileView>, i: int)
    requires
        forall|a: int, b: int| 0 <= a < b < s.len() ==> (#[trigger] s[a].id) != (#[trigger] s[b].id),
        0 <= i < s.len(),
    ensures
        find_file(s, s[i].id) == Some(s[i]),
    decreases s.len(),
{
    if i == 0 {
    } else {
        assert(s[0].id != s[i].id);
        assert forall|a: int, b: int|
            0 <= a < b < s.drop_first().len() implies (#[trigger] s.drop_first()[a].id) != (
        #[trigger] s.drop_first()[b].id) by {
            assert(s.drop_first()[a] == s[a + 1] && s.drop_first()[b] == s[b + 1]);
        }
        lemma_find_file_unique(s.drop_first(), i - 1);
        assert(s.drop_first()[i - 1] == s[i]);
    }
}

/// A found record stands at some index.
pub proof fn lemma_find_file_some(s: Seq<FileView>, id: u128)
    requires
        find_file(s, id) is Some,
    ensures
        exists|i: int|
            0 <= i < s.len() && (#[trigger] s[i]) == find_file(s, id).unwrap() && s[i].id == id,
    decreases s.len(),
{
    if s.len() > 0 {
        if s[0].id == id {
        } else {
            lemma_find_file_some(s.drop_first(), id);
            let i = choose|i: int|
                0 <= i < s.drop_first().len() && (#[trigger] s.drop_first()[i]) == find_file(
                    s.drop_first(),
                    id,
                ).unwrap() && s.drop_first()[i].id == id;
            assert(s[i + 1] == s.drop_first()[i]);
        }
    }
}

/// When a find reports nothing, no row carries the id.
proof fn lemma_find_file_absent(s: Seq<FileView>, id: u128)
    ensures
        find_file(s, id) is None ==> forall|j: int| 0 <= j < s.len() ==> (#[trigger] s[j].id) != id,
    decreases s.len(),
{
    if s.len() > 0 {
        lemma_find_file_absent(s.drop_first(), id);
        assert forall|j: int| 0 <= j < s.len() && find_file(s, id) is None implies (
        #[trigger] s[j].id) != id by {
            if j > 0 {
                assert(s.drop_first()[j - 1] == s[j]);
            }
        }
    }
}

} // verus!
