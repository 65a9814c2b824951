//! Access to an actor's variables, stored under `/var/{pid}/`.

use vstd::prelude::*;
use vstd::string::{StringExecFns, StrSliceExecFns};

use crate::runtime::ActorRuntime;
use crate::text::{decimal_int, starts_with};

verus! {

/// The directory of the variables of node `pid`: `/var/{pid}/`.
pub open spec fn var_dir_spec(pid: i64) -> Seq<char> {
    "/var/"@ + decimal_int(pid as int) + "/"@
}

/// The directory of the variables of node `pid`: `/var/{pid}/`.
pub fn var_dir(pid: i64) -> (r: String)
    ensures
        r@ == var_dir_spec(pid),
{
    let mut s = String::from_str("/var/");
    crate::text::push_decimal_i64(&mut s, pid);
    s.append("/");
    proof {
        reveal_strlit("/var/");
        reveal_strlit("/");
    }
    assert(s@ =~= var_dir_spec(pid));
    s
}

/// The path of variable `key` of node `pid`: `/var/{pid}/{key}`.
pub fn var_path(pid: i64, key: &str) -> (r: String)
    ensures
        r@ == var_dir_spec(pid) + key@,
{
    let mut s = var_dir(pid);
    s.append(key);
    s
}

/// The keys under `dir`: each path that starts with `dir`, without that prefix.
pub open spec fn keys_under(dir: Seq<char>, paths: Seq<Seq<char>>) -> Seq<Seq<char>>
    decreases paths.len(),
{
    if paths.len() == 0 {
        Seq::empty()
    } else {
        let rest = keys_under(dir, paths.drop_last());
        let p = paths.last();
        if dir.len() <= p.len() && p.subrange(0, dir.len() as int) == dir {
            rest.push(p.subrange(dir.len() as int, p.len() as int))
        } else {
            rest
        }
    }
}

/// The keys of a directory listing of `dir` (none when listing failed).
pub fn var_keys_from_listing(dir: &str, listing: Result<Vec<String>, i32>) -> (r: Vec<String>)
    ensures
        r@.map_values(|s: String| s@) == match listing {
            Ok(v) => keys_under(dir@, v@.map_values(|s: String| s@)),
            Err(_) => Seq::empty(),
        },
{
    let paths = match listing {
        Ok(v) => v,
        Err(_) => Vec::new(),
    };
    let ghost pv = paths@.map_values(|s: String| s@);
    let mut out: Vec<String> = Vec::new();
    let mut i: usize = 0;
    let dl = dir.unicode_len();
    while i < paths.len()
        invariant
            i <= paths@.len(),
            dl == dir@.len(),
            pv == paths@.map_values(|s: String| s@),
            out@.map_values(|s: String| s@) == keys_under(dir@, pv.take(i as int)),
        decreases paths@.len() - i,
    {
        assert(pv.take(i + 1).drop_last() =~= pv.take(i as int));
        assert(pv.take(i + 1).last() == paths@[i as int]@);
        let p = paths[i].as_str();
        if starts_with(p, dir) {
            let pl = p.unicode_len();
            let k = p.substring_char(dl, pl);
            let ghost o0 = out@;
            out.push(String::from_str(k));
            assert(out@.map_values(|s: String| s@) =~= o0.map_values(|s: String| s@).push(k@));
        }
        i = i + 1;
    }
    assert(pv.take(i as int) =~= pv);
    out
}

/// List all variable keys registered for this actor under `/var/{pid}/`;
/// none when the runtime cannot list directories.
pub fn list_var_keys<R: ActorRuntime>(runtime: &mut R) -> (r: Vec<String>)
    ensures
        exists|pid: i64, listing: Result<Seq<Seq<char>>, i32>|
            #[trigger] old(runtime).admits_node_handle(pid) && #[trigger] old(runtime).admits_listdir(var_dir_spec(pid), listing)
                && r@.map_values(|s: String| s@) == listing_keys(var_dir_spec(pid), listing),
{
    let pid = runtime.node_handle();
    let dir = var_dir(pid);
    let listing = runtime.listdir(dir.as_str());
    let ghost lv = crate::runtime::listing_view(listing);
    let r = var_keys_from_listing(dir.as_str(), listing);
    assert(r@.map_values(|s: String| s@) == listing_keys(var_dir_spec(pid), lv));
    r
}

/// The keys of a listing of `dir` (an errno: the listing failed, so there are none).
pub open spec fn listing_keys(dir: Seq<char>, listing: Result<Seq<Seq<char>>, i32>) -> Seq<Seq<char>> {
    match listing {
        Ok(p) => keys_under(dir, p),
        Err(_) => Seq::empty(),
    }
}


/// The text of the error that decoding invalid UTF-8 `bytes` reports.
pub uninterp spec fn utf8_error_text(bytes: Seq<u8>) -> Seq<char>;

/// `String::from_utf8`, with the error as its text. Claimed, as its documentation
/// says: it succeeds exactly on valid UTF-8, and then holds the characters those
/// bytes encode; the error's text is a function of the bytes alone.
#[verifier::external_body]
fn string_from_utf8(bytes: Vec<u8>) -> (r: Result<String, String>)
    ensures
        r is Ok <==> vstd::utf8::valid_utf8(bytes@),
        r matches Ok(s) ==> s@ == vstd::utf8::decode_utf8(bytes@),
        r matches Err(e) ==> e@ == utf8_error_text(bytes@),
{
    String::from_utf8(bytes).map_err(|e| e.to_string())
}

/// What reading a variable does once its file was asked for.
#[derive(Debug, PartialEq, Eq)]
pub enum VarOpen {
    /// No such variable (ENOENT): its value is absent.
    Absent,
    /// Opening failed otherwise: `errno {e}`.
    Failed(String),
    /// Opened: read it to its end from this descriptor.
    Opened(isize),
}

/// The message of a failed variable operation: `errno {e}`.
pub open spec fn errno_message(e: i32) -> Seq<char> {
    "errno "@ + decimal_int(e as int)
}

fn errno_text(e: i32) -> (r: String)
    ensures
        r@ == errno_message(e),
{
    let mut m = String::from_str("errno ");
    crate::text::push_decimal_i64(&mut m, e as i64);
    proof {
        reveal_strlit("errno ");
    }
    m
}

/// The step after opening the file of a variable.
pub fn var_open_step(result: Result<isize, i32>) -> (r: VarOpen)
    ensures
        match result {
            Ok(fd) => r == VarOpen::Opened(fd),
            Err(e) => if e == 2 {
                r == VarOpen::Absent
            } else {
                r matches VarOpen::Failed(m) && m@ == errno_message(e)
            },
        },
{
    match result {
        Ok(fd) => VarOpen::Opened(fd),
        Err(e) => if e == 2 {
            VarOpen::Absent
        } else {
            VarOpen::Failed(errno_text(e))
        },
    }
}

/// What reading a variable does after one read.
#[derive(Debug, PartialEq, Eq)]
pub enum VarRead {
    /// Bytes were read: keep them and read on.
    More,
    /// End of the file: close it.
    End,
    /// The read was interrupted (EINTR): read again.
    Retry,
    /// The read failed with this errno: close the file and fail.
    Failed(i32),
}

/// The step after one read of a variable's file.
pub fn var_read_step(result: Result<usize, i32>) -> (r: VarRead)
    ensures
        match result {
            Ok(n) => if n == 0 {
                r == VarRead::End
            } else {
                r == VarRead::More
            },
            Err(e) => if e == 4 {
                r == VarRead::Retry
            } else {
                r == VarRead::Failed(e)
            },
        },
{
    match result {
        Ok(n) => if n == 0 {
            VarRead::End
        } else {
            VarRead::More
        },
        Err(e) => if e == 4 {
            VarRead::Retry
        } else {
            VarRead::Failed(e)
        },
    }
}

/// The result of closing a variable's file after reading it.
pub fn var_close_step(result: Result<(), i32>) -> (r: Result<(), String>)
    ensures
        match result {
            Ok(()) => r is Ok,
            Err(e) => r matches Err(m) && m@ == errno_message(e),
        },
{
    match result {
        Ok(()) => Ok(()),
        Err(e) => Err(errno_text(e)),
    }
}

/// The value of a variable whose file holds `content`: absent when empty, else its
/// text, or the decoding error when it is not UTF-8.
pub fn var_value(content: Vec<u8>) -> (r: Result<Option<String>, String>)
    ensures
        content@.len() == 0 ==> r == Ok::<Option<String>, String>(None),
        content@.len() > 0 && vstd::utf8::valid_utf8(content@) ==> (r matches Ok(Some(s)) && s@
            == vstd::utf8::decode_utf8(content@)),
        content@.len() > 0 && !vstd::utf8::valid_utf8(content@) ==> (r matches Err(e) && e@
            == utf8_error_text(content@)),
{
    if content.len() == 0 {
        return Ok(None);
    }
    match string_from_utf8(content) {
        Ok(s) => Ok(Some(s)),
        Err(e) => Err(e),
    }
}

} // verus!
