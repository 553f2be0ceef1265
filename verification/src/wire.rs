use vstd::prelude::*;

use crate::models::{BackendError, EntryType, FileEntry};
use crate::strutil::{chars_vec, push_char, push_str, str_eq};
use crate::stub::{last_slash_at, lemma_last_slash_char};

verus! {

/// What a response status asks the client to do: report success, retry
/// the same call once after a silent re-login, or surface an error.
#[derive(Debug, Clone, Copy, PartialEq, Eq, Structural)]
pub enum StatusClass {
    Success,
    Retry,
    Fail,
}

/// The class of an HTTP status: success on 200 and 201; an expired
/// session asks for one retry, and only one; everything else fails.
pub open spec fn spec_status_class(status: u16, already_retried: bool) -> StatusClass {
    if status == 200 || status == 201 {
        StatusClass::Success
    } else if status == 401 && !already_retried {
        StatusClass::Retry
    } else {
        StatusClass::Fail
    }
}

/// The typed error a failing status surfaces as; `detail` carries the
/// server's message where the taxonomy keeps one — for a conflict, the
/// response body's error field as `parse_error_body` reads it.
pub fn status_error(status: u16, detail: String) -> (r: BackendError)
    ensures
        status == 401 ==> r is Unauthorized,
        status == 403 ==> r is Forbidden,
        status == 404 ==> r is NotFound,
        status == 409 ==> r is Conflict,
        status == 500 ==> r is InternalServerError,
        status == 503 ==> r is ServerUnreachable,
        !(status == 401 || status == 403 || status == 404 || status == 409 || status == 500
            || status == 503) ==> r is Other,
{
    if status == 401 {
        BackendError::Unauthorized
    } else if status == 403 {
        BackendError::Forbidden
    } else if status == 404 {
        BackendError::NotFound(detail)
    } else if status == 409 {
        BackendError::Conflict(detail)
    } else if status == 500 {
        BackendError::InternalServerError
    } else if status == 503 {
        BackendError::ServerUnreachable
    } else {
        BackendError::Other(detail)
    }
}

/// Classifies a response status: whether the call succeeded, must be
/// retried once after re-authentication, or failed.
pub fn classify_status(status: u16, already_retried: bool) -> (r: StatusClass)
    ensures
        r == spec_status_class(status, already_retried),
{
    if status == 200 || status == 201 {
        StatusClass::Success
    } else if status == 401 && !already_retried {
        StatusClass::Retry
    } else {
        StatusClass::Fail
    }
}

/// One injected expired-session answer is recovered transparently: the
/// first such status asks for a silent re-login and a retry, the
/// retried call's success is surfaced, and a second expired-session
/// answer in the same call is not retried again.
pub proof fn lemma_retry_once()
    ensures
        spec_status_class(401, false) == StatusClass::Retry,
        spec_status_class(200, true) == StatusClass::Success,
        spec_status_class(201, true) == StatusClass::Success,
        spec_status_class(401, true) == StatusClass::Fail,
{
}

/// Outcome of the login request: a session on 200, a typed error
/// otherwise.
pub fn classify_login(status: u16) -> (r: Result<(), BackendError>)
    ensures
        status == 200 ==> r is Ok,
        status == 401 ==> (r matches Err(e) && e is Unauthorized),
        status != 200 && status != 401 ==> (r matches Err(e) && e is Other),
{
    if status == 200 {
        Ok(())
    } else if status == 401 {
        Err(BackendError::Unauthorized)
    } else {
        let mut s = String::new();
        push_str(&mut s, "unexpected login status");
        Err(BackendError::Other(s))
    }
}

/// The path with every leading separator removed, as the endpoint
/// grammar wants it.
pub open spec fn spec_trim_slashes(p: Seq<char>) -> Seq<char>
    decreases p.len(),
{
    if p.len() > 0 && p[0] == '/' {
        spec_trim_slashes(p.drop_first())
    } else {
        p
    }
}

fn push_trimmed(out: &mut String, path: &str)
    ensures
        final(out)@ == old(out)@ + spec_trim_slashes(path@),
{
    let cs = chars_vec(path);
    proof {
        assert(path@.skip(0) =~= path@);
    }
    let mut i: usize = 0;
    while i < cs.len() && cs[i] == '/'
        invariant
            i <= cs@.len(),
            cs@ == path@,
            forall|k: int| 0 <= k < i ==> cs@[k] == '/',
            spec_trim_slashes(path@) == spec_trim_slashes(path@.skip(i as int)),
        decreases cs@.len() - i,
    {
        proof {
            assert(path@.skip(i as int)[0] == path@[i as int]);
            assert(path@.skip(i as int).drop_first() =~= path@.skip(i as int + 1));
        }
        i = i + 1;
    }
    proof {
        if i < cs@.len() {
            assert(path@.skip(i as int)[0] == path@[i as int]);
        } else {
            assert(path@.skip(i as int) =~= Seq::<char>::empty());
        }
        assert(spec_trim_slashes(path@) == path@.skip(i as int));
    }
    let ghost mid = out@;
    let mut j: usize = i;
    while j < cs.len()
        invariant
            i <= j <= cs@.len(),
            cs@ == path@,
            out@ == mid + path@.subrange(i as int, j as int),
        decreases cs@.len() - j,
    {
        push_char(out, cs[j]);
        proof {
            assert(out@ =~= mid + path@.subrange(i as int, j + 1 as int));
        }
        j = j + 1;
    }
    proof {
        assert(path@.subrange(i as int, path@.len() as int) =~= path@.skip(i as int));
    }
}

/// The character of one decimal digit.
pub open spec fn spec_digit(d: int) -> char {
    if d == 0 {
        '0'
    } else if d == 1 {
        '1'
    } else if d == 2 {
        '2'
    } else if d == 3 {
        '3'
    } else if d == 4 {
        '4'
    } else if d == 5 {
        '5'
    } else if d == 6 {
        '6'
    } else if d == 7 {
        '7'
    } else if d == 8 {
        '8'
    } else {
        '9'
    }
}

/// The decimal rendering of a number, most significant digit first.
pub open spec fn spec_dec(n: int) -> Seq<char>
    decreases n,
{
    if n < 10 {
        seq![spec_digit(n)]
    } else {
        spec_dec(n / 10).push(spec_digit(n % 10))
    }
}

fn push_dec(out: &mut String, n: u64)
    ensures
        final(out)@ == old(out)@ + spec_dec(n as int),
    decreases n,
{
    if n >= 10 {
        push_dec(out, n / 10);
    }
    let d = n % 10;
    let c: char = if d == 0 {
        '0'
    } else if d == 1 {
        '1'
    } else if d == 2 {
        '2'
    } else if d == 3 {
        '3'
    } else if d == 4 {
        '4'
    } else if d == 5 {
        '5'
    } else if d == 6 {
        '6'
    } else if d == 7 {
        '7'
    } else if d == 8 {
        '8'
    } else {
        '9'
    };
    push_char(out, c);
    proof {
        if n < 10 {
            assert(out@ =~= old(out)@ + seq![spec_digit(n as int)]);
        }
    }
}

/// Renders a number in decimal.
pub fn dec_u64(n: u64) -> (r: String)
    ensures
        r@ == spec_dec(n as int),
{
    let mut s = String::new();
    push_dec(&mut s, n);
    proof {
        assert(s@ =~= spec_dec(n as int));
    }
    s
}

/// The endpoint of a directory operation on `path`.
pub fn endpoint_dir(path: &str) -> (r: String)
    ensures
        r@ == "api/directories/"@ + spec_trim_slashes(path@),
{
    let mut s = String::new();
    push_str(&mut s, "api/directories/");
    push_trimmed(&mut s, path);
    s
}

/// The endpoint of a file create, delete, write or rename on `path`.
pub fn endpoint_file(path: &str) -> (r: String)
    ensures
        r@ == "api/files/"@ + spec_trim_slashes(path@),
{
    let mut s = String::new();
    push_str(&mut s, "api/files/");
    push_trimmed(&mut s, path);
    s
}

/// The endpoint of an attribute read or change on `path`.
pub fn endpoint_attr(path: &str) -> (r: String)
    ensures
        r@ == "api/files/attributes/"@ + spec_trim_slashes(path@),
{
    let mut s = String::new();
    push_str(&mut s, "api/files/attributes/");
    push_trimmed(&mut s, path);
    s
}

/// The endpoint of a ranged chunk read on `path`.
pub fn endpoint_read(path: &str, offset: u64, size: u64) -> (r: String)
    ensures
        r@ == "api/files/"@ + spec_trim_slashes(path@) + "?offset="@ + spec_dec(offset as int)
            + "&size="@ + spec_dec(size as int),
{
    let mut s = String::new();
    push_str(&mut s, "api/files/");
    push_trimmed(&mut s, path);
    push_str(&mut s, "?offset=");
    push_dec(&mut s, offset);
    push_str(&mut s, "&size=");
    push_dec(&mut s, size);
    s
}

/// The endpoint of a streamed read on `path`.
pub fn endpoint_stream(path: &str, offset: u64) -> (r: String)
    ensures
        r@ == "api/files/stream/"@ + spec_trim_slashes(path@) + "?offset="@ + spec_dec(
            offset as int,
        ),
{
    let mut s = String::new();
    push_str(&mut s, "api/files/stream/");
    push_trimmed(&mut s, path);
    push_str(&mut s, "?offset=");
    push_dec(&mut s, offset);
    s
}

/// A character as it stands inside a JSON string: quotes and
/// backslashes are escaped, everything else passes through.
pub open spec fn spec_escape_char(c: char) -> Seq<char> {
    if c == '"' {
        seq!['\\', '"']
    } else if c == '\\' {
        seq!['\\', '\\']
    } else {
        seq![c]
    }
}

/// A string as it stands inside a JSON string.
pub open spec fn spec_escape(s: Seq<char>) -> Seq<char>
    decreases s.len(),
{
    if s.len() == 0 {
        Seq::empty()
    } else {
        spec_escape_char(s[0]) + spec_escape(s.drop_first())
    }
}

/// True when the string holds a control character, which this encoder
/// does not carry.
pub open spec fn has_control(s: Seq<char>) -> bool {
    exists|k: int| 0 <= k < s.len() && (s[k] as u32) < 32
}

fn push_escaped(out: &mut String, s: &str) -> (ok: bool)
    ensures
        ok == !has_control(s@),
        ok ==> final(out)@ == old(out)@ + spec_escape(s@),
{
    let cs = chars_vec(s);
    let ghost base = out@;
    let mut i: usize = 0;
    while i < cs.len()
        invariant
            i <= cs@.len(),
            cs@ == s@,
            forall|k: int| 0 <= k < i ==> (cs@[k] as u32) >= 32,
            out@ == base + spec_escape(s@.take(i as int)),
        decreases cs@.len() - i,
    {
        let c = cs[i];
        if (c as u32) < 32 {
            return false;
        }
        if c == '"' {
            push_char(out, '\\');
            push_char(out, '"');
        } else if c == '\\' {
            push_char(out, '\\');
            push_char(out, '\\');
        } else {
            push_char(out, c);
        }
        proof {
            lemma_escape_step(s@, i as int);
        }
        i = i + 1;
    }
    proof {
        assert(s@.take(s@.len() as int) =~= s@);
    }
    true
}

/// Escaping one more character appends that character's escape.
proof fn lemma_escape_step(s: Seq<char>, i: int)
    requires
        0 <= i < s.len(),
    ensures
        spec_escape(s.take(i + 1)) == spec_escape(s.take(i)) + spec_escape_char(s[i]),
    decreases i,
{
    if i == 0 {
        assert(s.take(1)[0] == s[0]);
        assert(s.take(1).drop_first() =~= Seq::<char>::empty());
        assert(s.take(0) =~= Seq::<char>::empty());
        assert(spec_escape(Seq::<char>::empty()) =~= Seq::<char>::empty());
        assert(spec_escape(s.take(1)) == spec_escape_char(s.take(1)[0]) + spec_escape(
            s.take(1).drop_first(),
        ));
        assert(spec_escape_char(s[0]) + Seq::<char>::empty() =~= spec_escape_char(s[0]));
        assert(spec_escape(s.take(0)) + spec_escape_char(s[0]) =~= spec_escape_char(s[0]));
    } else {
        lemma_escape_step(s.drop_first(), i - 1);
        assert(s.take(i + 1)[0] == s[0]);
        assert(s.take(i + 1).drop_first() =~= s.drop_first().take(i));
        assert(s.take(i)[0] == s[0]);
        assert(s.take(i).drop_first() =~= s.drop_first().take(i - 1));
        assert(s.drop_first()[i - 1] == s[i]);
        assert(spec_escape_char(s[0]) + (spec_escape(s.drop_first().take(i - 1))
            + spec_escape_char(s[i])) =~= (spec_escape_char(s[0]) + spec_escape(
            s.drop_first().take(i - 1),
        )) + spec_escape_char(s[i]));
    }
}

/// The login request body: a JSON object carrying the credentials.
/// Credentials holding control characters are refused.
pub fn login_body(username: &str, password: &str) -> (r: Option<String>)
    ensures
        r is Some <==> !has_control(username@) && !has_control(password@),
        r matches Some(b) ==> b@ == "{\"username\":\""@ + spec_escape(username@)
            + "\",\"password\":\""@ + spec_escape(password@) + "\"}"@,
{
    let mut s = String::new();
    push_str(&mut s, "{\"username\":\"");
    if !push_escaped(&mut s, username) {
        return None;
    }
    push_str(&mut s, "\",\"password\":\"");
    if !push_escaped(&mut s, password) {
        return None;
    }
    push_str(&mut s, "\"}");
    Some(s)
}

/// The rename request body, naming the destination path.
pub fn rename_body(new_path: &str) -> (r: Option<String>)
    ensures
        r is Some <==> !has_control(new_path@),
        r matches Some(b) ==> b@ == "{\"new_path\":\""@ + spec_escape(new_path@) + "\"}"@,
{
    let mut s = String::new();
    push_str(&mut s, "{\"new_path\":\"");
    if !push_escaped(&mut s, new_path) {
        return None;
    }
    push_str(&mut s, "\"}");
    Some(s)
}

/// True when `p` is a prefix of `s`.
pub open spec fn spec_is_prefix(p: Seq<char>, s: Seq<char>) -> bool {
    p.len() <= s.len() && s.take(p.len() as int) == p
}

/// Where a path moves when the entry at `old_prefix` moves to
/// `new_prefix`: the path itself moves to the new prefix, a descendant
/// is re-anchored under it, and any other path does not move.
pub open spec fn spec_reanchor(path: Seq<char>, old_prefix: Seq<char>, new_prefix: Seq<char>) -> Option<Seq<char>> {
    if path == old_prefix {
        Some(new_prefix)
    } else if spec_is_prefix(old_prefix + seq!['/'], path) {
        Some(new_prefix + path.skip(old_prefix.len() as int))
    } else {
        None
    }
}

/// Computes where a cached path moves when an entry is renamed;
/// paths outside the moved subtree yield nothing.
pub fn reanchor_path(path: &str, old_prefix: &str, new_prefix: &str) -> (r: Option<String>)
    ensures
        match r {
            Some(s) => spec_reanchor(path@, old_prefix@, new_prefix@) == Some(s@),
            None => spec_reanchor(path@, old_prefix@, new_prefix@) is None,
        },
{
    if str_eq(path, old_prefix) {
        return Some(new_prefix.to_owned());
    }
    let pc = chars_vec(path);
    let oc = chars_vec(old_prefix);
    if pc.len() <= oc.len() {
        proof {
            assert((old_prefix@ + seq!['/']).len() == old_prefix@.len() + 1);
        }
        return None;
    }
    let mut k: usize = 0;
    while k < oc.len()
        invariant
            k <= oc@.len(),
            pc@ == path@,
            oc@ == old_prefix@,
            oc@.len() + 1 <= pc@.len(),
            forall|t: int| 0 <= t < k ==> pc@[t] == oc@[t],
        decreases oc@.len() - k,
    {
        if pc[k] != oc[k] {
            proof {
                assert((old_prefix@ + seq!['/'])[k as int] == old_prefix@[k as int]);
                assert(path@.take((old_prefix@ + seq!['/']).len() as int)[k as int] == path@[
                    k as int
                ]);
            }
            return None;
        }
        k = k + 1;
    }
    if pc[oc.len()] != '/' {
        proof {
            let op = old_prefix@ + seq!['/'];
            assert(op[op.len() - 1] == '/');
            assert(path@.take(op.len() as int)[op.len() - 1] == path@[oc@.len() as int]);
        }
        return None;
    }
    let mut s = String::new();
    push_str(&mut s, new_prefix);
    let mut j: usize = oc.len();
    while j < pc.len()
        invariant
            oc@.len() <= j <= pc@.len(),
            pc@ == path@,
            oc@ == old_prefix@,
            s@ == new_prefix@ + path@.subrange(oc@.len() as int, j as int),
        decreases pc@.len() - j,
    {
        push_char(&mut s, pc[j]);
        proof {
            assert(s@ =~= new_prefix@ + path@.subrange(oc@.len() as int, j + 1 as int));
        }
        j = j + 1;
    }
    proof {
        let op = old_prefix@ + seq!['/'];
        assert(path@.take(op.len() as int) =~= op);
        assert(path@ != old_prefix@) by {
            if path@ == old_prefix@ {
                assert(path@.len() == old_prefix@.len());
            }
        }
        assert(path@.subrange(oc@.len() as int, path@.len() as int) =~= path@.skip(
            oc@.len() as int,
        ));
    }
    Some(s)
}

/// One entry as the server sends it on the wire, with plain fields;
/// timestamps are milliseconds since the UNIX epoch.
pub struct WireEntry {
    pub path: String,
    pub owner: u32,
    pub group: Option<u32>,
    pub ty: u8,
    pub permissions: u16,
    pub size: u64,
    pub atime: u64,
    pub mtime: u64,
    pub ctime: u64,
    pub btime: u64,
}

/// The last segment of a path: everything after the last separator, the
/// whole path when it has none, and the root path itself for the root.
pub open spec fn spec_file_name(p: Seq<char>) -> Seq<char> {
    let i = last_slash_at(p);
    if p == seq!['/'] {
        p
    } else if i == -1 {
        p
    } else {
        p.subrange(i + 1, p.len() as int)
    }
}

/// Extracts the name component of a path.
pub fn file_name_of(path: &str) -> (r: String)
    ensures
        r@ == spec_file_name(path@),
{
    if str_eq(path, "/") {
        proof {
            reveal_strlit("/");
            assert(path@ =~= seq!['/']);
        }
        return "/".to_owned();
    }
    proof {
        reveal_strlit("/");
        if path@ == seq!['/'] {
            assert(path@ == "/"@);
        }
    }
    let cs = chars_vec(path);
    let mut i: usize = cs.len();
    let mut found: usize = 0;
    let mut has_found: bool = false;
    while i > 0 && !has_found
        invariant
            i <= cs@.len(),
            cs@ == path@,
            !has_found ==> (forall|k: int| i <= k < cs@.len() ==> cs@[k] != '/'),
            has_found ==> found == i && i < cs@.len() && cs@[found as int] == '/' && (forall|
                k: int,
            |
                found < k < cs@.len() ==> cs@[k] != '/'),
        decreases i,
    {
        i = i - 1;
        if cs[i] == '/' {
            has_found = true;
            found = i;
        }
    }
    proof {
        lemma_last_slash_char(path@);
        if has_found {
            assert(path@[found as int] == '/');
            if last_slash_at(path@) == -1 {
                assert(path@[found as int] != '/');
            }
            if last_slash_at(path@) > found {
                assert(path@[last_slash_at(path@)] != '/');
            }
            if 0 <= last_slash_at(path@) < found {
                assert(path@[found as int] != '/');
            }
            assert(last_slash_at(path@) == found as int);
        } else {
            if last_slash_at(path@) >= 0 {
                assert(path@[last_slash_at(path@)] != '/');
            }
            assert(last_slash_at(path@) == -1);
        }
    }
    let start: usize = if has_found {
        found + 1
    } else {
        0
    };
    let mut s = String::new();
    let mut j: usize = start;
    while j < cs.len()
        invariant
            start <= j <= cs@.len(),
            cs@ == path@,
            s@ == path@.subrange(start as int, j as int),
        decreases cs@.len() - j,
    {
        push_char(&mut s, cs[j]);
        proof {
            assert(s@ =~= path@.subrange(start as int, j + 1 as int));
        }
        j = j + 1;
    }
    proof {
        if !has_found {
            assert(path@.subrange(0, path@.len() as int) =~= path@);
        }
    }
    s
}

/// The metadata record a wire entry denotes under a given inode: the
/// name is the path's last segment, the kind is the numeric tag, a
/// missing group defaults to the owner, and directories report two
/// links where files and symlinks report one.
pub fn entry_from_fields(w: &WireEntry, ino: u64) -> (r: Option<FileEntry>)
    ensures
        r is Some <==> w.ty == 0 || w.ty == 1 || w.ty == 2,
        r matches Some(e) ==> e@.ino == ino && e@.name == spec_file_name(w.path@) && e@.path
            == w.path@ && e@.kind == (if w.ty == 0 {
            EntryType::File
        } else if w.ty == 1 {
            EntryType::Directory
        } else {
            EntryType::Symlink
        }) && e@.size == (if w.ty == 1 {
            0int
        } else {
            w.size as int
        }) && e@.perms == w.permissions && e@.uid == w.owner && e@.gid == (match w.group {
            Some(g) => g,
            None => w.owner,
        }) && e@.atime == w.atime && e@.mtime == w.mtime && e@.ctime == w.ctime && e@.btime
            == w.btime && e@.nlinks == (if w.ty == 1 {
            2int
        } else {
            1int
        }),
{
    let kind = if w.ty == 0 {
        EntryType::File
    } else if w.ty == 1 {
        EntryType::Directory
    } else if w.ty == 2 {
        EntryType::Symlink
    } else {
        return None;
    };
    let name = file_name_of(w.path.as_str());
    let gid = match w.group {
        Some(g) => g,
        None => w.owner,
    };
    let size = if w.ty == 1 {
        0
    } else {
        w.size
    };
    let nlinks: u32 = if w.ty == 1 {
        2
    } else {
        1
    };
    Some(
        FileEntry {
            ino,
            name,
            path: w.path.clone(),
            kind,
            size,
            perms: w.permissions,
            uid: w.owner,
            gid,
            atime: w.atime,
            mtime: w.mtime,
            ctime: w.ctime,
            btime: w.btime,
            nlinks,
        },
    )
}

// What the JSON reader of the wire format relies on: `serde_json`
// parses the response body into a tree of values, which the verified
// field readers below walk. Nothing is assumed about the tree itself.
#[verifier::external_type_specification]
#[verifier::external_body]
pub struct ExJsonValue(serde_json::Value);

/// Relies on serde_json::from_slice: parses a JSON document.
#[verifier::external_body]
fn parse_json(bytes: &[u8]) -> (r: Option<serde_json::Value>) {
    serde_json::from_slice::<serde_json::Value>(bytes).ok()
}

/// Relies on serde_json::Value::get: the field of an object under a key.
#[verifier::external_body]
fn json_get<'a>(v: &'a serde_json::Value, key: &str) -> (r: Option<&'a serde_json::Value>) {
    v.get(key)
}

/// Relies on serde_json::Value::as_u64: the value as an unsigned number.
#[verifier::external_body]
fn json_as_u64(v: &serde_json::Value) -> (r: Option<u64>) {
    v.as_u64()
}

/// Relies on serde_json::Value::as_str: the value as a string.
#[verifier::external_body]
fn json_as_string(v: &serde_json::Value) -> (r: Option<String>) {
    v.as_str().map(|s| s.to_owned())
}

/// Relies on serde_json::Value::as_array: the value as a list.
#[verifier::external_body]
fn json_as_array<'a>(v: &'a serde_json::Value) -> (r: Option<&'a Vec<serde_json::Value>>) {
    v.as_array()
}

fn json_field_u64(v: &serde_json::Value, key: &str) -> (r: Option<u64>) {
    match json_get(v, key) {
        Some(f) => json_as_u64(f),
        None => None,
    }
}

/// Reads the plain fields of one wire entry out of its JSON object;
/// absent or ill-typed mandatory fields yield nothing.
fn wire_entry_from_json(v: &serde_json::Value) -> (r: Option<WireEntry>) {
    let path = match json_get(v, "path") {
        Some(f) => match json_as_string(f) {
            Some(s) => s,
            None => {
                return None;
            },
        },
        None => {
            return None;
        },
    };
    let owner = match json_field_u64(v, "owner") {
        Some(n) => {
            if n > u32::MAX as u64 {
                return None;
            }
            n as u32
        },
        None => {
            return None;
        },
    };
    let group: Option<u32> = match json_get(v, "group") {
        Some(f) => match json_as_u64(f) {
            Some(n) => {
                if n > u32::MAX as u64 {
                    return None;
                }
                Some(n as u32)
            },
            None => None,
        },
        None => None,
    };
    let ty = match json_field_u64(v, "type") {
        Some(n) => {
            if n > u8::MAX as u64 {
                return None;
            }
            n as u8
        },
        None => {
            return None;
        },
    };
    let permissions = match json_field_u64(v, "permissions") {
        Some(n) => {
            if n > u16::MAX as u64 {
                return None;
            }
            n as u16
        },
        None => {
            return None;
        },
    };
    let size = match json_field_u64(v, "size") {
        Some(n) => n,
        None => {
            return None;
        },
    };
    let atime = match json_field_u64(v, "atime") {
        Some(n) => n,
        None => {
            return None;
        },
    };
    let mtime = match json_field_u64(v, "mtime") {
        Some(n) => n,
        None => {
            return None;
        },
    };
    let ctime = match json_field_u64(v, "ctime") {
        Some(n) => n,
        None => {
            return None;
        },
    };
    let btime = match json_field_u64(v, "btime") {
        Some(n) => n,
        None => {
            return None;
        },
    };
    Some(WireEntry { path, owner, group, ty, permissions, size, atime, mtime, ctime, btime })
}

/// Parses one entry response body; any shape the wire format does not
/// allow is a format error.
pub fn parse_entry(bytes: &[u8], ino: u64) -> (r: Result<FileEntry, BackendError>)
    ensures
        r matches Ok(e) ==> e@.ino == ino,
{
    let v = match parse_json(bytes) {
        Some(v) => v,
        None => {
            return Err(BackendError::BadAnswerFormat);
        },
    };
    let w = match wire_entry_from_json(&v) {
        Some(w) => w,
        None => {
            return Err(BackendError::BadAnswerFormat);
        },
    };
    match entry_from_fields(&w, ino) {
        Some(e) => Ok(e),
        None => Err(BackendError::BadAnswerFormat),
    }
}

/// Reads the error field out of a failure response body, the message a
/// conflict carries per the status taxonomy.
pub fn parse_error_body(bytes: &[u8]) -> (r: Option<String>) {
    match parse_json(bytes) {
        Some(v) => match json_get(&v, "error") {
            Some(f) => json_as_string(f),
            None => None,
        },
        None => None,
    }
}

/// Parses a directory-listing response body into its wire entries.
pub fn parse_listing(bytes: &[u8]) -> (r: Result<Vec<WireEntry>, BackendError>) {
    let v = match parse_json(bytes) {
        Some(v) => v,
        None => {
            return Err(BackendError::BadAnswerFormat);
        },
    };
    let arr = match json_as_array(&v) {
        Some(a) => a,
        None => {
            return Err(BackendError::BadAnswerFormat);
        },
    };
    let mut out: Vec<WireEntry> = Vec::new();
    let mut i: usize = 0;
    while i < arr.len()
        decreases arr@.len() - i,
    {
        match wire_entry_from_json(&arr[i]) {
            Some(w) => out.push(w),
            None => {
                return Err(BackendError::BadAnswerFormat);
            },
        }
        i = i + 1;
    }
    Ok(out)
}

/// Reads the accepted byte count out of a write response body.
pub fn parse_bytes_written(bytes: &[u8]) -> (r: Result<u64, BackendError>) {
    let v = match parse_json(bytes) {
        Some(v) => v,
        None => {
            return Err(BackendError::BadAnswerFormat);
        },
    };
    match json_field_u64(&v, "bytes") {
        Some(n) => Ok(n),
        None => Err(BackendError::BadAnswerFormat),
    }
}

} // verus!
