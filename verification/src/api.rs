use vstd::prelude::*;
use vstd::string::StrSliceExecFns;
use vstd::string::StringExecFns;

use crate::auth::{login_user, register_user, User};
use crate::config::{parse_config_field, with_cfg_field, Config, ConfigField, ConfigStore};
use crate::disk::Disk;
use crate::error::Error;
use crate::files::{find_file, folder_listing, File, FileStore, FileView};
use crate::jwt::{issue_at, token_of};
use crate::path::{clean_component, clean_of};
use crate::strutil::{dec_of, lemma_append_ne, lemma_dec_of_injective, str_eq, u128_to_dec};
use crate::users::{find_login, login_taken, UserStore};

verus! {

/// The body of a registration or login request.
pub struct Credentials {
    pub login: String,
    pub password: String,
}

/// The body of a successful login: the bearer token to present.
#[derive(Debug)]
pub struct AuthOk {
    pub access_token: String,
}

/// The query of a folder listing by name.
pub struct SearchQuery {
    pub name: String,
}

/// The body of a preference update: which toggle, and its new value.
pub struct ConfigUpdate {
    pub field: String,
    pub value: bool,
}

/// How long an issued token lives, in seconds.
pub const TOKEN_TTL_SECS: i64 = 1800;

/// Registers a fresh identity from a request body; the created identity id
/// comes back. `Conflict` when the login is taken, `Internal` on a hashing or
/// storage failure, and on failure nothing is created.
pub fn register(users: &mut UserStore, configs: &mut ConfigStore, req: &Credentials) -> (r: Result<
    u128,
    Error,
>)
    requires
        old(users).wf(),
        old(configs).wf(),
    ensures
        final(users).wf(),
        final(configs).wf(),
        r is Err ==> final(users)@ == old(users)@ && final(configs)@ == old(configs)@ && (
        r.unwrap_err() is Conflict || r.unwrap_err() is Internal),
        r is Err && r.unwrap_err() is Conflict ==> login_taken(old(users)@, req.login@),
        login_taken(old(users)@, req.login@) ==> r is Err,
        r is Ok ==> {
            &&& !login_taken(old(users)@, req.login@)
            &&& final(users)@.len() == old(users)@.len() + 1
            &&& final(users)@.drop_last() =~= old(users)@
            &&& final(users)@.last().id == r.unwrap()
            &&& final(users)@.last().login == req.login@
            &&& crate::auth::phc_matches(req.password@, final(users)@.last().phc)
        },
{
    register_user(users, configs, req.login.as_str(), req.password.as_str())
}

/// Logs an identity in and issues it a token good for the standard lifetime
/// from the given instant. Bad credentials are `Unauthorized`; a token the
/// backend could not produce is `Internal`.
pub fn login(users: &UserStore, req: &Credentials, secret: &Vec<u8>, now: i64) -> (r: Result<
    AuthOk,
    Error,
>)
    ensures
        r is Err ==> (r.unwrap_err() is Unauthorized || r.unwrap_err() is Internal),
        find_login(users@, req.login@) is None ==> r is Err && r.unwrap_err() is Unauthorized,
        find_login(users@, req.login@) is Some && crate::auth::phc_matches(
            req.password@,
            find_login(users@, req.login@).unwrap().phc,
        ) && now + TOKEN_TTL_SECS <= i64::MAX ==> r is Ok,
        r is Ok ==> {
            &&& find_login(users@, req.login@) is Some
            &&& crate::auth::phc_matches(
                req.password@,
                find_login(users@, req.login@).unwrap().phc,
            )
            &&& now + TOKEN_TTL_SECS <= i64::MAX
            &&& r.unwrap().access_token@ == token_of(
                find_login(users@, req.login@).unwrap().id,
                now,
                (now + TOKEN_TTL_SECS) as i64,
                secret@,
            )
        },
{
    let user_id = match login_user(users, req.login.as_str(), req.password.as_str()) {
        Ok(id) => id,
        Err(e) => {
            return Err(e);
        },
    };
    match issue_at(user_id, now, TOKEN_TTL_SECS, secret) {
        Ok(token) => Ok(AuthOk { access_token: token }),
        Err(e) => Err(e),
    }
}

/// The staging location of an upload: under the temp namespace of the owner,
/// with the record id as the leaf name.
pub open spec fn temp_path(owner: u128, id: u128) -> Seq<char> {
    "temp/"@ + dec_of(owner) + "/"@ + dec_of(id)
}

/// The committed location of an upload: under the permanent namespace of the
/// owner, with the record id as the leaf name.
pub open spec fn final_path(owner: u128, id: u128) -> Seq<char> {
    "storage/"@ + dec_of(owner) + "/"@ + dec_of(id)
}

fn temp_path_for(owner: u128, id: u128) -> (r: String)
    ensures
        r@ == temp_path(owner, id),
{
    let mut r = String::from_str("temp/");
    let o = u128_to_dec(owner);
    let i = u128_to_dec(id);
    r.append(o.as_str());
    r.append("/");
    r.append(i.as_str());
    proof {
        assert(r@ =~= temp_path(owner, id));
    }
    r
}

fn final_path_for(owner: u128, id: u128) -> (r: String)
    ensures
        r@ == final_path(owner, id),
{
    let mut r = String::from_str("storage/");
    let o = u128_to_dec(owner);
    let i = u128_to_dec(id);
    r.append(o.as_str());
    r.append("/");
    r.append(i.as_str());
    proof {
        assert(r@ =~= final_path(owner, id));
    }
    r
}

/// Two records of one owner never stage to the same temp location: the temp
/// namespace is keyed by the record id.
proof fn lemma_temp_path_injective(owner: u128, id1: u128, id2: u128)
    ensures
        id1 != id2 ==> temp_path(owner, id1) != temp_path(owner, id2),
{
    if id1 != id2 {
        lemma_dec_of_injective(id1, id2);
        lemma_append_ne("temp/"@ + dec_of(owner) + "/"@, dec_of(id1), dec_of(id2));
    }
}

/// What a download of record `id` by `caller` must come to, given the record
/// table and the byte store.
pub enum DownloadOutcome {
    /// No record has the id.
    Missing,
    /// The record exists but belongs to someone else.
    NotOwner,
    /// The record is a pure folder marker with no bytes.
    Folder,
    /// The record points at a physical path where no bytes live (the bounded
    /// inconsistency window of an interrupted commit).
    Unavailable,
    /// The bytes at the record's physical path.
    Payload(Seq<u8>),
}

/// The download protocol: existence, then ownership, then the folder check,
/// then the bytes at the record's physical path.
pub open spec fn download_spec(
    files: Seq<FileView>,
    disk: Map<Seq<char>, Seq<u8>>,
    caller: u128,
    id: u128,
) -> DownloadOutcome {
    if find_file(files, id) is None {
        DownloadOutcome::Missing
    } else {
        let f = find_file(files, id).unwrap();
        if f.owned_by != caller {
            DownloadOutcome::NotOwner
        } else if f.path is None {
            DownloadOutcome::Folder
        } else if !disk.contains_key(f.path.unwrap()) {
            DownloadOutcome::Unavailable
        } else {
            DownloadOutcome::Payload(disk[f.path.unwrap()])
        }
    }
}

/// Streams the bytes of a stored record back to its owner. A missing record
/// is `NotFound`; someone else's record is `Forbidden` (ownership is checked
/// only after existence, so the two are distinguishable); a folder marker is
/// `BadRequest`; a record whose bytes are not where it points is an internal
/// failure, never silently empty content.
pub fn download_file(files: &FileStore, disk: &Disk, user: &User, file_id: u128) -> (r: Result<
    Vec<u8>,
    Error,
>)
    requires
        disk.wf(),
    ensures
        r is Ok <==> download_spec(files@, disk@, user.id, file_id) is Payload,
        r is Ok ==> download_spec(files@, disk@, user.id, file_id) == DownloadOutcome::Payload(
            r.unwrap()@,
        ),
        download_spec(files@, disk@, user.id, file_id) is Missing ==> r.unwrap_err() is NotFound,
        download_spec(files@, disk@, user.id, file_id) is NotOwner ==> r.unwrap_err() is Forbidden,
        download_spec(files@, disk@, user.id, file_id) is Folder ==> r.unwrap_err() is BadRequest,
        download_spec(files@, disk@, user.id, file_id) is Unavailable ==> r.unwrap_err()
            is Internal,
{
    let record = match files.find_by_id(file_id) {
        Some(f) => f,
        None => {
            return Err(Error::NotFound(String::from_str("A file with that id does not exist")));
        },
    };
    if record.owned_by != user.id {
        return Err(Error::Forbidden(String::from_str("You do not have access to that file")));
    }
    let path = match &record.path {
        Some(p) => p,
        None => {
            return Err(Error::BadRequest(String::from_str("Cannot download a folder")));
        },
    };
    match disk.read(path.as_str()) {
        Some(data) => Ok(data),
        None => Err(Error::Internal(String::from_str("Stored bytes are missing"))),
    }
}

/// What a committed upload leaves behind: a record of the owner at its
/// permanent path, with exactly the uploaded bytes on disk under it.
pub open spec fn upload_committed(
    files: Seq<FileView>,
    disk: Map<Seq<char>, Seq<u8>>,
    owner: u128,
    id: u128,
    data: Seq<u8>,
) -> bool {
    &&& find_file(files, id) is Some
    &&& find_file(files, id).unwrap().owned_by == owner
    &&& find_file(files, id).unwrap().path == Some(final_path(owner, id))
    &&& disk.contains_key(final_path(owner, id))
    &&& disk[final_path(owner, id)] == data
}

/// Round trip: the state a committed upload leaves behind makes a download of
/// the returned id by the same owner yield exactly the uploaded bytes.
pub proof fn lemma_upload_download_round_trip(
    files: Seq<FileView>,
    disk: Map<Seq<char>, Seq<u8>>,
    owner: u128,
    id: u128,
    data: Seq<u8>,
)
    ensures
        upload_committed(files, disk, owner, id, data) ==> download_spec(files, disk, owner, id)
            == DownloadOutcome::Payload(data),
{
}

/// Ownership: a record that exists but was created by someone else downloads
/// as `NotOwner` for every caller but its owner, whatever the byte store
/// holds.
pub proof fn lemma_download_ownership(
    files: Seq<FileView>,
    disk: Map<Seq<char>, Seq<u8>>,
    caller: u128,
    id: u128,
)
    ensures
        find_file(files, id) is Some && find_file(files, id).unwrap().owned_by != caller
            ==> download_spec(files, disk, caller, id) == DownloadOutcome::NotOwner,
{
}

/// A whitespace character the folder query is trimmed of.
pub open spec fn is_space(c: char) -> bool {
    c == ' ' || c == '\t' || c == '\n' || c == '\r'
}

/// `s` with leading whitespace dropped.
pub open spec fn trim_front(s: Seq<char>) -> Seq<char>
    decreases s.len(),
{
    if s.len() > 0 && is_space(s[0]) {
        trim_front(s.drop_first())
    } else {
        s
    }
}

/// `s` with trailing whitespace dropped.
pub open spec fn trim_back(s: Seq<char>) -> Seq<char>
    decreases s.len(),
{
    if s.len() > 0 && is_space(s.last()) {
        trim_back(s.drop_last())
    } else {
        s
    }
}

/// `s` with whitespace dropped at both ends.
pub open spec fn trim_spaces(s: Seq<char>) -> Seq<char> {
    trim_back(trim_front(s))
}

fn is_space_char(c: char) -> (r: bool)
    ensures
        r == is_space(c),
{
    c == ' ' || c == '\t' || c == '\n' || c == '\r'
}

/// `s` with whitespace dropped at both ends.
pub fn trim_str(s: &str) -> (r: String)
    ensures
        r@ == trim_spaces(s@),
{
    let n = s.unicode_len();
    let mut a: usize = 0;
    proof {
        assert(s@.skip(0) =~= s@);
    }
    while a < n && is_space_char(s.get_char(a))
        invariant
            n == s@.len(),
            0 <= a <= n,
            trim_front(s@) == trim_front(s@.skip(a as int)),
        decreases n - a,
    {
        proof {
            assert(s@.skip(a as int)[0] == s@[a as int]);
            assert(s@.skip(a as int).drop_first() =~= s@.skip(a as int + 1));
        }
        a = a + 1;
    }
    proof {
        if a < n {
            assert(trim_front(s@.skip(a as int)) == s@.skip(a as int));
        } else {
            assert(s@.skip(a as int) =~= Seq::<char>::empty());
        }
        assert(trim_front(s@) == s@.skip(a as int));
        assert(s@.skip(a as int) =~= s@.subrange(a as int, n as int));
    }
    let mut b: usize = n;
    while b > a && is_space_char(s.get_char(b - 1))
        invariant
            n == s@.len(),
            0 <= a <= b <= n,
            trim_front(s@) == s@.subrange(a as int, n as int),
            trim_back(s@.subrange(a as int, n as int)) == trim_back(
                s@.subrange(a as int, b as int),
            ),
        decreases b,
    {
        proof {
            assert(s@.subrange(a as int, b as int).last() == s@[b - 1]);
            assert(s@.subrange(a as int, b as int).drop_last() =~= s@.subrange(
                a as int,
                b as int - 1,
            ));
        }
        b = b - 1;
    }
    proof {
        if b > a {
            assert(trim_back(s@.subrange(a as int, b as int)) == s@.subrange(a as int, b as int));
        } else {
            assert(s@.subrange(a as int, b as int) =~= Seq::<char>::empty());
        }
        assert(trim_spaces(s@) == s@.subrange(a as int, b as int));
    }
    String::from_str(s.substring_char(a, b))
}

/// Lists a folder by its trimmed name: an empty or whitespace-only query
/// lists the root, anything else lists the direct children of the named
/// folder, always owner-scoped and excluding deleted records.
pub fn find_files(files: &FileStore, user: &User, query: &SearchQuery) -> (r: Vec<File>)
    ensures
        r@.map_values(|f: File| f@) =~= folder_listing(
            files@,
            user.id,
            trim_spaces(query.name@),
        ),
{
    let name = trim_str(query.name.as_str());
    if name.as_str().is_empty() {
        proof {
            assert(trim_spaces(query.name@) =~= Seq::<char>::empty());
        }
        files.root(user.id)
    } else {
        files.folder(user.id, name.as_str())
    }
}

/// Lists the direct children of the folder a record id names: the nil id (the
/// reserved zero) lists the root; an unknown id is `NotFound`; otherwise the
/// record's own name is the folder listed. The listing is scoped to the
/// caller, though the folder record itself is looked up by id alone, as the
/// protocol does.
pub fn get_folder(files: &FileStore, user: &User, file_id: u128) -> (r: Result<Vec<File>, Error>)
    ensures
        file_id == 0 ==> r is Ok && r.unwrap()@.map_values(|f: File| f@) =~= folder_listing(
            files@,
            user.id,
            Seq::<char>::empty(),
        ),
        file_id != 0 ==> ((r is Ok <==> find_file(files@, file_id) is Some) && (r is Err
            ==> r.unwrap_err() is NotFound)),
        file_id != 0 && find_file(files@, file_id) is Some ==> r is Ok && r.unwrap()@.map_values(
            |f: File| f@,
        ) =~= folder_listing(files@, user.id, find_file(files@, file_id).unwrap().name),
{
    if file_id == 0 {
        Ok(files.root(user.id))
    } else {
        let record = match files.find_by_id(file_id) {
            Some(f) => f,
            None => {
                return Err(Error::NotFound(String::from_str("No file with such id")));
            },
        };
        Ok(files.folder(user.id, record.name.as_str()))
    }
}

/// The caller's preference row.
pub fn get_config(configs: &ConfigStore, user: &User) -> (r: Result<Config, Error>)
    ensures
        r is Ok <==> crate::config::find_cfg(configs@, user.id) is Some,
        r is Ok ==> r.unwrap()@ == crate::config::find_cfg(configs@, user.id).unwrap(),
        r is Err ==> r.unwrap_err() is Internal,
{
    configs.get(user.id)
}

/// Replaces one boolean display toggle of the caller's preference row; a
/// field name that is not one of the toggles is `BadRequest`.
pub fn put_config(configs: &mut ConfigStore, user: &User, update: &ConfigUpdate) -> (r: Result<
    (),
    Error,
>)
    requires
        old(configs).wf(),
    ensures
        final(configs).wf(),
        r is Ok <==> parse_config_field(update.field@) is Some,
        r is Err ==> r.unwrap_err() is BadRequest && final(configs)@ == old(configs)@
            && r.unwrap_err().spec_message() == "Unrecognized config option: "@ + update.field@,
        parse_config_field(update.field@) is Some ==> final(configs)@ =~= with_cfg_field(
            old(configs)@,
            user.id,
            parse_config_field(update.field@).unwrap(),
            update.value,
        ),
{
    let field = update.field.as_str();
    if str_eq(field, "ascending") {
        configs.update_field(user.id, ConfigField::Ascending, update.value);
        Ok(())
    } else if str_eq(field, "created_at") {
        configs.update_field(user.id, ConfigField::CreatedAt, update.value);
        Ok(())
    } else if str_eq(field, "owned_by") {
        configs.update_field(user.id, ConfigField::OwnedBy, update.value);
        Ok(())
    } else if str_eq(field, "edited_at") {
        configs.update_field(user.id, ConfigField::EditedAt, update.value);
        Ok(())
    } else if str_eq(field, "edited_by") {
        configs.update_field(user.id, ConfigField::EditedBy, update.value);
        Ok(())
    } else if str_eq(field, "filtered") {
        configs.update_field(user.id, ConfigField::Filtered, update.value);
        Ok(())
    } else {
        let mut message = String::from_str("Unrecognized config option: ");
        message.append(update.field.as_str());
        Err(Error::BadRequest(message))
    }
}

/// One part of a multipart upload request, as the transport hands it over:
/// the part's field name, the client-supplied filename if the part carried
/// one, the raw bytes, and — for text-valued parts — the bytes decoded as
/// text (the decoding lives with the transport).
pub struct UploadField {
    pub name: String,
    pub filename: Option<String>,
    pub data: Vec<u8>,
    pub text: String,
}

/// The mathematical value of an `UploadField`.
pub struct UploadFieldView {
    pub name: Seq<char>,
    pub filename: Option<Seq<char>>,
    pub data: Seq<u8>,
    pub text: Seq<char>,
}

impl View for UploadField {
    type V = UploadFieldView;

    open spec fn view(&self) -> UploadFieldView {
        UploadFieldView {
            name: self.name@,
            filename: match self.filename {
                Some(s) => Some(s@),
                None => None,
            },
            data: self.data@,
            text: self.text@,
        }
    }
}

pub open spec fn field_views(s: Seq<UploadField>) -> Seq<UploadFieldView> {
    s.map_values(|f: UploadField| f@)
}

/// A part that carries the payload: named `file`, with a filename.
pub open spec fn is_file_field(f: UploadFieldView) -> bool {
    f.name == "file"@ && f.filename is Some
}

/// A part that carries the destination folder.
pub open spec fn is_dest_field(f: UploadFieldView) -> bool {
    f.name == "destination"@
}

/// The payload part that wins when several arrive: the last one.
pub open spec fn last_file(fs: Seq<UploadFieldView>) -> Option<UploadFieldView>
    decreases fs.len(),
{
    if fs.len() == 0 {
        None
    } else if is_file_field(fs.last()) {
        Some(fs.last())
    } else {
        last_file(fs.drop_last())
    }
}

/// The destination part that wins when several arrive: the last one.
pub open spec fn last_dest(fs: Seq<UploadFieldView>) -> Option<UploadFieldView>
    decreases fs.len(),
{
    if fs.len() == 0 {
        None
    } else if is_dest_field(fs.last()) {
        Some(fs.last())
    } else {
        last_dest(fs.drop_last())
    }
}

/// How many payload parts the request carries; each one creates a record.
pub open spec fn count_file(fs: Seq<UploadFieldView>) -> nat
    decreases fs.len(),
{
    if fs.len() == 0 {
        0
    } else {
        count_file(fs.drop_last()) + if is_file_field(fs.last()) {
            1nat
        } else {
            0nat
        }
    }
}

/// Some payload part's filename cleans to nothing.
pub open spec fn any_bad_file(fs: Seq<UploadFieldView>) -> bool {
    exists|i: int|
        0 <= i < fs.len() && is_file_field(#[trigger] fs[i]) && clean_of(
            fs[i].filename.unwrap(),
        ).len() == 0
}

/// How many payload parts the walk stages before it stops: all of them, or
/// those strictly before the first whose filename cleans to nothing.
pub open spec fn staged_count(fs: Seq<UploadFieldView>) -> nat
    decreases fs.len(),
{
    if fs.len() == 0 {
        0
    } else if is_file_field(fs[0]) {
        if clean_of(fs[0].filename.unwrap()).len() == 0 {
            0
        } else {
            1 + staged_count(fs.drop_first())
        }
    } else {
        staged_count(fs.drop_first())
    }
}

/// Prepending one part adds its payload count in front.
proof fn lemma_count_file_cons(x: UploadFieldView, s: Seq<UploadFieldView>)
    ensures
        count_file(seq![x] + s) == count_file(s) + if is_file_field(x) {
            1nat
        } else {
            0nat
        },
    decreases s.len(),
{
    let whole = seq![x] + s;
    if s.len() == 0 {
        assert(whole.drop_last() =~= Seq::<UploadFieldView>::empty());
        assert(whole.last() == x);
        assert(count_file(Seq::<UploadFieldView>::empty()) == 0);
        assert(count_file(whole) == count_file(whole.drop_last()) + if is_file_field(x) {
            1nat
        } else {
            0nat
        });
    } else {
        lemma_count_file_cons(x, s.drop_last());
        assert(whole.drop_last() =~= seq![x] + s.drop_last());
        assert(whole.last() == s.last());
        assert(count_file(whole) == count_file(whole.drop_last()) + if is_file_field(s.last()) {
            1nat
        } else {
            0nat
        });
        assert(count_file(s) == count_file(s.drop_last()) + if is_file_field(s.last()) {
            1nat
        } else {
            0nat
        });
    }
}

/// When the walk stops at position `k` (the first bad payload part, or the
/// end), the staged parts are exactly the payload parts before `k`.
proof fn lemma_staged_prefix(fs: Seq<UploadFieldView>, k: int)
    requires
        0 <= k <= fs.len(),
        forall|i: int|
            0 <= i < k && is_file_field(#[trigger] fs[i]) ==> clean_of(
                fs[i].filename.unwrap(),
            ).len() > 0,
        k < fs.len() ==> is_file_field(fs[k]) && clean_of(fs[k].filename.unwrap()).len() == 0,
    ensures
        staged_count(fs) == count_file(fs.subrange(0, k)),
    decreases fs.len(),
{
    if fs.len() == 0 {
        assert(fs.subrange(0, 0) =~= Seq::<UploadFieldView>::empty());
    } else if k == 0 {
        assert(fs.subrange(0, 0) =~= Seq::<UploadFieldView>::empty());
        assert(staged_count(fs) == 0);
    } else {
        let rest = fs.drop_first();
        assert forall|i: int|
            0 <= i < k - 1 && is_file_field(#[trigger] rest[i]) implies clean_of(
            rest[i].filename.unwrap(),
        ).len() > 0 by {
            assert(rest[i] == fs[i + 1]);
        }
        if k - 1 < rest.len() {
            assert(rest[k - 1] == fs[k]);
        }
        lemma_staged_prefix(rest, k - 1);
        assert(fs.subrange(0, k) =~= seq![fs[0]] + rest.subrange(0, k - 1));
        lemma_count_file_cons(fs[0], rest.subrange(0, k - 1));
        if is_file_field(fs[0]) {
            assert(clean_of(fs[0].filename.unwrap()).len() > 0);
        }
    }
}

/// A request that created no record left the byte store exactly as it was.
proof fn lemma_disk_frame_collapse(
    old_disk: Map<Seq<char>, Seq<u8>>,
    new_disk: Map<Seq<char>, Seq<u8>>,
    records: Seq<FileView>,
    old_len: int,
    owner: u128,
)
    requires
        records.len() == old_len,
        forall|p: Seq<char>|
            #[trigger] new_disk.contains_key(p) <==> old_disk.contains_key(p) || (exists|j: int|
                old_len <= j < records.len() && p == #[trigger] temp_path(owner, records[j].id)),
        forall|p: Seq<char>|
            old_disk.contains_key(p) && !(exists|j: int|
                old_len <= j < records.len() && p == #[trigger] temp_path(owner, records[j].id))
                ==> #[trigger] new_disk[p] == old_disk[p],
    ensures
        new_disk =~= old_disk,
{
    assert forall|p: Seq<char>| #[trigger] new_disk.contains_key(p) implies old_disk.contains_key(
        p,
    ) by {
        if !old_disk.contains_key(p) {
            let j = choose|j: int|
                old_len <= j < records.len() && p == temp_path(owner, records[j].id);
        }
    }
    assert forall|p: Seq<char>| #[trigger] old_disk.contains_key(p) implies new_disk.contains_key(
        p,
    ) && new_disk[p] == old_disk[p] by {
        if exists|j: int| old_len <= j < records.len() && p == temp_path(owner, records[j].id) {
            let j = choose|j: int|
                old_len <= j < records.len() && p == temp_path(owner, records[j].id);
        }
    }
}

proof fn lemma_count_file_le(fs: Seq<UploadFieldView>)
    ensures
        count_file(fs) <= fs.len(),
    decreases fs.len(),
{
    if fs.len() > 0 {
        lemma_count_file_le(fs.drop_last());
    }
}

/// The upload protocol. The parts are walked in arrival order: every `file`
/// part with a filename has its filename cleaned (a filename that cleans to
/// nothing is `BadRequest` and stops the request), a record created under the
/// cleaned name, the record staged to the temp namespace, and the bytes laid
/// down there; every `destination` part has its text run through the path
/// sanitizer; unrecognized parts are skipped. After the walk, a missing
/// destination or a missing payload is `BadRequest`; otherwise the last
/// payload part is committed: its record is renamed to destination plus
/// filename, repositioned to the permanent namespace, and the bytes are moved
/// there in one step. The id of the committed record comes back.
///
/// Earlier payload parts stay staged in the temp namespace, reachable from
/// their records, for a reconciliation sweep to find; no record this request
/// creates ever carries an empty logical name.
#[verifier::rlimit(80)]
pub fn upload_file(
    files: &mut FileStore,
    disk: &mut Disk,
    user: &User,
    fields: &Vec<UploadField>,
    now: i64,
) -> (r: Result<u128, Error>)
    requires
        old(files).wf(),
        old(disk).wf(),
    ensures
        final(files).wf(),
        final(disk).wf(),
        final(files)@.len() >= old(files)@.len(),
        final(files)@.subrange(0, old(files)@.len() as int) =~= old(files)@,
        forall|j: int|
            old(files)@.len() <= j < final(files)@.len() ==> (#[trigger] final(files)@[j].name).len()
                > 0 && final(files)@[j].owned_by == user.id,
        forall|j: int|
            old(files)@.len() <= j < final(files)@.len() ==> (#[trigger] final(files)@[j].path)
                is Some && final(disk)@.contains_key(final(files)@[j].path.unwrap()),
        r is Ok ==> forall|j: int|
            old(files)@.len() <= j < final(files)@.len() ==> (#[trigger] final(files)@[j].path)
                == if final(files)@[j].id == r.unwrap() {
                Some(final_path(user.id, r.unwrap()))
            } else {
                Some(temp_path(user.id, final(files)@[j].id))
            },
        r is Err ==> r.unwrap_err() is BadRequest || r.unwrap_err() is Internal,
        r is Err && r.unwrap_err() is BadRequest ==> any_bad_file(field_views(fields@))
            || last_dest(field_views(fields@)) is None || last_file(field_views(fields@)) is None,
        r is Ok ==> !any_bad_file(field_views(fields@)) && last_dest(field_views(fields@)) is Some
            && last_file(field_views(fields@)) is Some,
        old(files).spec_next_id() + fields@.len() <= u128::MAX ==> ((r is Err) <==> (any_bad_file(
            field_views(fields@),
        ) || last_dest(field_views(fields@)) is None || last_file(field_views(fields@)) is None)),
        old(files).spec_next_id() + fields@.len() <= u128::MAX && r is Err ==> r.unwrap_err()
            is BadRequest,
        r is Err ==> forall|j: int|
            old(files)@.len() <= j < final(files)@.len() ==> (#[trigger] final(files)@[j].path)
                == Some(temp_path(user.id, final(files)@[j].id)) && crate::path::slash_free(
                final(files)@[j].name,
            ) && (exists|i: int|
                0 <= i < fields@.len() && is_file_field(#[trigger] field_views(fields@)[i])
                    && final(files)@[j].name == clean_of(field_views(fields@)[i].filename.unwrap())),
        r is Err && r.unwrap_err() is BadRequest ==> final(files)@.len() == old(files)@.len()
            + staged_count(field_views(fields@)) && final(files).spec_next_id() == old(
            files,
        ).spec_next_id() + staged_count(field_views(fields@)),
        r is Err ==> (forall|p: Seq<char>|
            #[trigger] final(disk)@.contains_key(p) <==> old(disk)@.contains_key(p) || (
            exists|j: int|
                old(files)@.len() <= j < final(files)@.len() && p == #[trigger] temp_path(
                    user.id,
                    final(files)@[j].id,
                ))),
        r is Err ==> (forall|p: Seq<char>|
            old(disk)@.contains_key(p) && !(exists|j: int|
                old(files)@.len() <= j < final(files)@.len() && p == #[trigger] temp_path(
                    user.id,
                    final(files)@[j].id,
                )) ==> #[trigger] final(disk)@[p] == old(disk)@[p]),
        r is Err && final(files)@.len() == old(files)@.len() ==> final(disk)@ =~= old(disk)@,
        r is Err && r.unwrap_err() is BadRequest ==> {
            &&& any_bad_file(field_views(fields@)) ==> r.unwrap_err().spec_message()
                == "File name contained no characters once sanitized"@
            &&& !any_bad_file(field_views(fields@)) && last_dest(field_views(fields@)) is None
                ==> r.unwrap_err().spec_message() == "Multipart missing \"destination\" field."@
            &&& !any_bad_file(field_views(fields@)) && last_dest(field_views(fields@)) is Some
                && last_file(field_views(fields@)) is None ==> r.unwrap_err().spec_message()
                == "Multipart missing \"file\" field."@
        },
        r is Ok ==> r.unwrap() == old(files).spec_next_id() + count_file(field_views(fields@)) - 1
            && final(files)@.len() == old(files)@.len() + count_file(field_views(fields@))
            && final(files).spec_next_id() == old(files).spec_next_id() + count_file(
            field_views(fields@),
        ),
        r is Ok ==> forall|j: int|
            old(files)@.len() <= j < final(files)@.len() && (#[trigger] final(files)@[j]).id
                != r.unwrap() ==> (exists|i: int|
                0 <= i < fields@.len() && is_file_field(#[trigger] field_views(fields@)[i])
                    && final(files)@[j].name == clean_of(field_views(fields@)[i].filename.unwrap())),
        r is Ok ==> {
            let lf = last_file(field_views(fields@)).unwrap();
            let ld = last_dest(field_views(fields@)).unwrap();
            let id = r.unwrap();
            &&& clean_of(lf.filename.unwrap()).len() > 0
            &&& upload_committed(final(files)@, final(disk)@, user.id, id, lf.data)
            &&& find_file(final(files)@, id).unwrap().name == crate::path::sanitize_spec(ld.text)
                + clean_of(lf.filename.unwrap())
            &&& crate::files::live(find_file(final(files)@, id).unwrap())
            &&& !final(disk)@.contains_key(temp_path(user.id, id))
        },
{
    let ghost fv = field_views(fields@);
    let ghost old_len = old(files)@.len() as int;
    let owner = user.id;
    let mut destination: Option<String> = None;
    let mut file: Option<(String, u128, String)> = None;
    let n = fields.len();
    let mut k: usize = 0;
    proof {
        assert(fv.subrange(0, 0) =~= Seq::<UploadFieldView>::empty());
        assert(files@.subrange(0, old_len) =~= old(files)@);
    }
    while k < n
        invariant
            n == fields@.len(),
            fv == field_views(fields@),
            old_len == old(files)@.len() as int,
            owner == user.id,
            0 <= k <= n,
            files.wf(),
            disk.wf(),
            files@.len() >= old_len,
            files@.len() == old_len + count_file(fv.subrange(0, k as int)),
            files@.subrange(0, old_len) =~= old(files)@,
            forall|j: int|
                old_len <= j < files@.len() ==> (#[trigger] files@[j].name).len() > 0
                    && files@[j].owned_by == owner && crate::path::slash_free(files@[j].name),
            forall|j: int|
                old_len <= j < files@.len() ==> (exists|i: int|
                    0 <= i < k && is_file_field(#[trigger] fv[i]) && (
                    #[trigger] files@[j]).name == clean_of(fv[i].filename.unwrap())),
            forall|j: int|
                old_len <= j < files@.len() ==> (#[trigger] files@[j].path) == Some(
                    temp_path(owner, files@[j].id),
                ) && disk@.contains_key(temp_path(owner, files@[j].id)),
            forall|p: Seq<char>|
                #[trigger] disk@.contains_key(p) <==> old(disk)@.contains_key(p) || (
                exists|j: int|
                    old_len <= j < files@.len() && p == #[trigger] temp_path(
                        owner,
                        files@[j].id,
                    )),
            forall|p: Seq<char>|
                old(disk)@.contains_key(p) && !(exists|j: int|
                    old_len <= j < files@.len() && p == #[trigger] temp_path(
                        owner,
                        files@[j].id,
                    )) ==> #[trigger] disk@[p] == old(disk)@[p],
            files.spec_next_id() == old(files).spec_next_id() + count_file(
                fv.subrange(0, k as int),
            ),
            destination is Some <==> last_dest(fv.subrange(0, k as int)) is Some,
            destination is Some ==> destination.unwrap()@ == crate::path::sanitize_spec(
                last_dest(fv.subrange(0, k as int)).unwrap().text,
            ),
            file is Some <==> last_file(fv.subrange(0, k as int)) is Some,
            forall|i: int|
                0 <= i < k && is_file_field(#[trigger] fv[i]) ==> clean_of(
                    fv[i].filename.unwrap(),
                ).len() > 0,
            file is Some ==> {
                let lf = last_file(fv.subrange(0, k as int)).unwrap();
                let id = file.unwrap().1;
                &&& file.unwrap().0@ == clean_of(lf.filename.unwrap())
                &&& file.unwrap().0@.len() > 0
                &&& count_file(fv.subrange(0, k as int)) >= 1
                &&& id == old(files).spec_next_id() + count_file(fv.subrange(0, k as int)) - 1
                &&& file.unwrap().2@ == temp_path(owner, id)
                &&& find_file(files@, id) == Some(
                    FileView {
                        id,
                        name: clean_of(lf.filename.unwrap()),
                        path: Some(temp_path(owner, id)),
                        owned_by: owner,
                        edited_by: None,
                        created_at: now,
                        edited_at: None,
                        deleted_by: None,
                        deleted_at: None,
                    },
                )
                &&& disk@.contains_key(temp_path(owner, id))
                &&& disk@[temp_path(owner, id)] == lf.data
            },
        decreases n - k,
    {
        let f = &fields[k];
        let ghost pre = fv.subrange(0, k as int);
        let ghost pre2 = fv.subrange(0, k as int + 1);
        proof {
            assert(pre2.drop_last() =~= pre);
            assert(pre2.last() == fv[k as int]);
            assert(fv[k as int] == fields@[k as int]@);
        }
        if str_eq(f.name.as_str(), "file") {
            match &f.filename {
                Some(filename) => {
                    proof {
                        assert(is_file_field(fv[k as int]));
                        assert(!is_dest_field(fv[k as int])) by {
                            reveal_strlit("file");
                            reveal_strlit("destination");
                            assert("file"@.len() == 4);
                            assert("destination"@.len() == 11);
                            assert(fv[k as int].name == "file"@);
                        }
                        assert(last_file(pre2) == Some(fv[k as int]));
                        assert(last_dest(pre2) == last_dest(pre));
                        assert(count_file(pre2) == count_file(pre) + 1);
                    }
                    let cleaned = clean_component(filename.as_str());
                    if cleaned.as_str().is_empty() {
                        proof {
                            assert(is_file_field(fv[k as int]) && clean_of(
                                fv[k as int].filename.unwrap(),
                            ).len() == 0);
                            assert(any_bad_file(fv));
                            lemma_staged_prefix(fv, k as int);
                            if files@.len() == old_len {
                                lemma_disk_frame_collapse(
                                    old(disk)@,
                                    disk@,
                                    files@,
                                    old_len,
                                    owner,
                                );
                            }
                        }
                        return Err(
                            Error::BadRequest(
                                String::from_str("File name contained no characters once sanitized"),
                            ),
                        );
                    }
                    let ghost prev_files = files@;
                    let id = match files.create(cleaned.as_str(), None, owner, now) {
                        Ok(id) => id,
                        Err(e) => {
                            proof {
                                if old(files).spec_next_id() + fields@.len() <= u128::MAX {
                                    lemma_count_file_le(pre);
                                    assert(false);
                                }
                                if files@.len() == old_len {
                                    lemma_disk_frame_collapse(
                                        old(disk)@,
                                        disk@,
                                        files@,
                                        old_len,
                                        owner,
                                    );
                                }
                            }
                            return Err(e);
                        },
                    };
                    let temp = temp_path_for(owner, id);
                    let ghost staged = FileView {
                        id,
                        name: clean_of(fv[k as int].filename.unwrap()),
                        path: None,
                        owned_by: owner,
                        edited_by: None,
                        created_at: now,
                        edited_at: None,
                        deleted_by: None,
                        deleted_at: None,
                    };
                    proof {
                        assert(files@ =~= prev_files.push(staged));
                    }
                    let ghost pushed = files@;
                    files.reposition(id, temp.as_str());
                    proof {
                        let idx = pushed.len() - 1;
                        assert(files@.len() == pushed.len());
                        assert forall|j: int| 0 <= j < idx implies files@[j] == pushed[j] by {
                            assert(pushed[j].id != id);
                        }
                        assert(files@[idx] == FileView {
                            id,
                            name: clean_of(fv[k as int].filename.unwrap()),
                            path: Some(temp_path(owner, id)),
                            owned_by: owner,
                            edited_by: None,
                            created_at: now,
                            edited_at: None,
                            deleted_by: None,
                            deleted_at: None,
                        });
                        crate::files::lemma_find_file_unique(files@, idx);
                        assert(files@.subrange(0, old_len) =~= old(files)@);
                    }
                    let ghost disk_before = disk@;
                    disk.write(temp.as_str(), crate::disk::copy_bytes(&f.data));
                    proof {
                        let tkey = temp_path(owner, id);
                        let last = files@.len() - 1;
                        assert(files@[last].id == id);

                        // The created record carries the cleaned name of this
                        // very part.
                        assert forall|j: int|
                            old_len <= j < files@.len() implies (#[trigger] files@[j].name).len()
                            > 0 && files@[j].owned_by == owner && crate::path::slash_free(
                            files@[j].name,
                        ) && (exists|i: int|
                            0 <= i < k as int + 1 && is_file_field(#[trigger] fv[i])
                                && files@[j].name == clean_of(fv[i].filename.unwrap())) by {
                            if j == last {
                                assert(is_file_field(fv[k as int]) && files@[j].name == clean_of(
                                    fv[k as int].filename.unwrap(),
                                ));
                            } else {
                                assert(files@[j] == prev_files[j]);
                            }
                        }

                        // The byte store gained exactly this part's staging
                        // entry.
                        assert forall|p: Seq<char>| #[trigger] disk@.contains_key(p) implies (old(
                            disk,
                        )@.contains_key(p) || (exists|j: int|
                            old_len <= j < files@.len() && p == #[trigger] temp_path(
                                owner,
                                files@[j].id,
                            ))) by {
                            if p == tkey {
                                assert(p == temp_path(owner, files@[last].id));
                            } else {
                                assert(disk_before.contains_key(p));
                                if !old(disk)@.contains_key(p) {
                                    let j = choose|j: int|
                                        old_len <= j < prev_files.len() && p == temp_path(
                                            owner,
                                            prev_files[j].id,
                                        );
                                    assert(files@[j] == prev_files[j]);
                                    assert(p == temp_path(owner, files@[j].id));
                                }
                            }
                        }
                        assert forall|p: Seq<char>|
                            (old(disk)@.contains_key(p) || (exists|j: int|
                                old_len <= j < files@.len() && p == #[trigger] temp_path(
                                    owner,
                                    files@[j].id,
                                ))) implies disk@.contains_key(p) by {
                            if old(disk)@.contains_key(p) {
                                assert(disk_before.contains_key(p));
                            } else {
                                let j = choose|j: int|
                                    old_len <= j < files@.len() && p == temp_path(
                                        owner,
                                        files@[j].id,
                                    );
                                if j == last {
                                    assert(p == tkey);
                                } else {
                                    assert(files@[j] == prev_files[j]);
                                    assert(disk_before.contains_key(p));
                                }
                            }
                        }
                        assert forall|p: Seq<char>|
                            old(disk)@.contains_key(p) && !(exists|j: int|
                                old_len <= j < files@.len() && p == #[trigger] temp_path(
                                    owner,
                                    files@[j].id,
                                )) implies #[trigger] disk@[p] == old(disk)@[p] by {
                            if p == tkey {
                                assert(p == temp_path(owner, files@[last].id));
                            }
                            assert(p != tkey);
                            assert(!(exists|j: int|
                                old_len <= j < prev_files.len() && p == temp_path(
                                    owner,
                                    prev_files[j].id,
                                ))) by {
                                if exists|j: int|
                                    old_len <= j < prev_files.len() && p == temp_path(
                                        owner,
                                        prev_files[j].id,
                                    ) {
                                    let j = choose|j: int|
                                        old_len <= j < prev_files.len() && p == temp_path(
                                            owner,
                                            prev_files[j].id,
                                        );
                                    assert(files@[j] == prev_files[j]);
                                    assert(p == temp_path(owner, files@[j].id));
                                }
                            }
                            assert(disk_before[p] == old(disk)@[p]);
                        }
                    }
                    file = Some((cleaned, id, temp));
                },
                None => {
                    proof {
                        assert(!is_file_field(fv[k as int]));
                        assert(!is_dest_field(fv[k as int])) by {
                            reveal_strlit("file");
                            reveal_strlit("destination");
                            assert("file"@.len() == 4);
                            assert("destination"@.len() == 11);
                            assert(fv[k as int].name == "file"@);
                        }
                        assert(last_file(pre2) == last_file(pre));
                        assert(last_dest(pre2) == last_dest(pre));
                        assert(count_file(pre2) == count_file(pre));
                                assert forall|j: int|
                            old_len <= j < files@.len() implies (#[trigger] files@[j].name).len() > 0
                            && files@[j].owned_by == owner && crate::path::slash_free(files@[j].name) && (
                        exists|i: int|
                            0 <= i < k as int + 1 && is_file_field(#[trigger] fv[i]) && files@[j].name
                                == clean_of(fv[i].filename.unwrap())) by {
                            let i = choose|i: int|
                                0 <= i < k && is_file_field(#[trigger] fv[i]) && files@[j].name == clean_of(
                                    fv[i].filename.unwrap(),
                                );
                        }
                    }
                },
            }
        } else if str_eq(f.name.as_str(), "destination") {
            proof {
                assert(is_dest_field(fv[k as int]));
                assert(!is_file_field(fv[k as int])) by {
                    reveal_strlit("file");
                    reveal_strlit("destination");
                    assert("file"@.len() == 4);
                    assert("destination"@.len() == 11);
                    assert(fv[k as int].name == "destination"@);
                }
                assert(last_dest(pre2) == Some(fv[k as int]));
                assert(last_file(pre2) == last_file(pre));
                assert(count_file(pre2) == count_file(pre));
                assert forall|j: int|
                    old_len <= j < files@.len() implies (#[trigger] files@[j].name).len() > 0
                    && files@[j].owned_by == owner && crate::path::slash_free(files@[j].name) && (
                exists|i: int|
                    0 <= i < k as int + 1 && is_file_field(#[trigger] fv[i]) && files@[j].name
                        == clean_of(fv[i].filename.unwrap())) by {
                    let i = choose|i: int|
                        0 <= i < k && is_file_field(#[trigger] fv[i]) && files@[j].name == clean_of(
                            fv[i].filename.unwrap(),
                        );
                }
            }
            destination = Some(crate::path::sanitize_destination(f.text.as_str()));
        } else {
            proof {
                assert(!is_file_field(fv[k as int]));
                assert(!is_dest_field(fv[k as int]));
                assert(last_file(pre2) == last_file(pre));
                assert(last_dest(pre2) == last_dest(pre));
                assert(count_file(pre2) == count_file(pre));
                assert forall|j: int|
                    old_len <= j < files@.len() implies (#[trigger] files@[j].name).len() > 0
                    && files@[j].owned_by == owner && crate::path::slash_free(files@[j].name) && (
                exists|i: int|
                    0 <= i < k as int + 1 && is_file_field(#[trigger] fv[i]) && files@[j].name
                        == clean_of(fv[i].filename.unwrap())) by {
                    let i = choose|i: int|
                        0 <= i < k && is_file_field(#[trigger] fv[i]) && files@[j].name == clean_of(
                            fv[i].filename.unwrap(),
                        );
                }
            }
        }
        k = k + 1;
    }
    proof {
        assert(fv.subrange(0, n as int) =~= fv);
        assert(!any_bad_file(fv)) by {
            if any_bad_file(fv) {
                let i = choose|i: int|
                    0 <= i < fv.len() && is_file_field(#[trigger] fv[i]) && clean_of(
                        fv[i].filename.unwrap(),
                    ).len() == 0;
                assert(clean_of(fv[i].filename.unwrap()).len() > 0);
            }
        }
    }
    proof {
        lemma_staged_prefix(fv, n as int);
        if files@.len() == old_len {
            lemma_disk_frame_collapse(old(disk)@, disk@, files@, old_len, owner);
        }
    }
    let dest = match destination {
        Some(d) => d,
        None => {
            return Err(
                Error::BadRequest(String::from_str("Multipart missing \"destination\" field.")),
            );
        },
    };
    let staged_file = match file {
        Some(t) => t,
        None => {
            return Err(Error::BadRequest(String::from_str("Multipart missing \"file\" field.")));
        },
    };
    let (name, id, temp) = staged_file;
    let new_name = dest.concat(name.as_str());
    let ghost lf = last_file(fv).unwrap();
    let ghost ld = last_dest(fv).unwrap();
    let ghost committed = FileView {
        id,
        name: crate::path::sanitize_spec(ld.text) + clean_of(lf.filename.unwrap()),
        path: Some(final_path(owner, id)),
        owned_by: owner,
        edited_by: None,
        created_at: now,
        edited_at: None,
        deleted_by: None,
        deleted_at: None,
    };
    let ghost before_commit = files@;
    proof {
        crate::files::lemma_find_file_some(before_commit, id);
    }
    let ghost idx = choose|i: int|
        0 <= i < before_commit.len() && (#[trigger] before_commit[i]) == find_file(
            before_commit,
            id,
        ).unwrap() && before_commit[i].id == id;
    files.rename(id, new_name.as_str());
    proof {
        assert forall|j: int| 0 <= j < before_commit.len() && j != idx implies files@[j]
            == before_commit[j] by {
            if j < idx {
                assert(before_commit[j].id < before_commit[idx].id);
            } else {
                assert(before_commit[idx].id < before_commit[j].id);
            }
        }
        assert(files@[idx].name == new_name@ && files@[idx].id == id && files@[idx].path == Some(
            temp_path(owner, id),
        ) && files@[idx].owned_by == owner);
    }
    let ghost renamed = files@;
    let final_p = final_path_for(owner, id);
    files.reposition(id, final_p.as_str());
    proof {
        assert forall|j: int| 0 <= j < renamed.len() && j != idx implies files@[j]
            == renamed[j] by {
            assert(renamed[j].id != id);
        }
        assert(files@[idx] == committed);
        crate::files::lemma_find_file_unique(files@, idx);
        assert(files@.subrange(0, old_len) =~= old(files)@);
        assert(new_name@.len() > 0);
    }
    match disk.rename(temp.as_str(), final_p.as_str()) {
        Ok(()) => {},
        Err(e) => {
            proof {
                assert(false);
            }
            return Err(e);
        },
    }
    proof {
        assert(temp_path(owner, id) != final_path(owner, id)) by {
            reveal_strlit("temp/");
            reveal_strlit("storage/");
            assert(temp_path(owner, id)[0] == 't');
            assert(final_path(owner, id)[0] == 's');
        }
        assert(!disk@.contains_key(temp_path(owner, id)));
        assert(disk@.contains_key(final_path(owner, id)) && disk@[final_path(owner, id)]
            == lf.data);
        assert(upload_committed(files@, disk@, owner, id, lf.data));

        // Every record this request created still has bytes at its path: the
        // committed one at its permanent location, the others staged where
        // their ids name them, untouched by the one rename.
        assert(old_len <= idx) by {
            if idx < old_len {
                assert(before_commit[idx] == old(files)@[idx]);
            }
        }
        assert forall|j: int|
            old_len <= j < files@.len() && (#[trigger] files@[j]).id != id implies (exists|i: int|
            0 <= i < fv.len() && is_file_field(#[trigger] fv[i]) && files@[j].name == clean_of(
                fv[i].filename.unwrap(),
            )) by {
            assert(j != idx);
            assert(files@[j] == before_commit[j]);
            let i = choose|i: int|
                0 <= i < n && is_file_field(#[trigger] fv[i]) && before_commit[j].name == clean_of(
                    fv[i].filename.unwrap(),
                );
        }
        assert forall|j: int|
            old_len <= j < files@.len() implies (#[trigger] files@[j].path) == (if files@[j].id
                == id {
                Some(final_path(owner, id))
            } else {
                Some(temp_path(owner, files@[j].id))
            }) && disk@.contains_key(files@[j].path.unwrap()) by {
            if j == idx {
                assert(files@[j] == committed);
            } else {
                assert(files@[j] == before_commit[j]);
                assert(before_commit[j].id != before_commit[idx].id) by {
                    if j < idx {
                        assert(before_commit[j].id < before_commit[idx].id);
                    } else {
                        assert(before_commit[idx].id < before_commit[j].id);
                    }
                }
                lemma_temp_path_injective(owner, files@[j].id, id);
                assert(files@[j].path == Some(temp_path(owner, files@[j].id)));
                assert(disk@.contains_key(temp_path(owner, files@[j].id)));
            }
        }
    }
    Ok(id)
}

} // verus!
