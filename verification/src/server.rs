//! Per-request routing and retrieval decisions.
//!
//! The HTTP layer hands these functions the request target and takes back a
//! decision: greet, stream a file at a path, or answer an empty 404. The
//! table is never changed by a request, so the decision is a function of the
//! table, the data directory and the target alone.

use vstd::prelude::*;

use crate::json::SLASH;
use crate::mapping::Mapping;

verus! {

/// The target of the greeting route: `/`.
pub open spec fn spec_is_home(t: Seq<u8>) -> bool {
    t == seq![SLASH]
}

/// The bytes of the retrieval route's prefix, `/dr-who/`.
pub open spec fn spec_retrieve_prefix() -> Seq<u8> {
    seq![SLASH, 0x64, 0x72, 0x2d, 0x77, 0x68, 0x6f, SLASH]
}

/// The id of a retrieval target: what follows `/dr-who/`, provided it is a
/// single non-empty path segment (no further `/`). `None` for every other
/// target.
pub open spec fn spec_retrieve_id(t: Seq<u8>) -> Option<Seq<u8>> {
    if t.len() > 8 && t.take(8) == spec_retrieve_prefix() && (forall|i: int|
        8 <= i < t.len() ==> t[i] != SLASH) {
        Some(t.subrange(8, t.len() as int))
    } else {
        None
    }
}

/// A parsed request target.
pub enum Route {
    /// The greeting route `/`.
    Home,
    /// The retrieval route `/dr-who/{id}`, with the id taken verbatim.
    Retrieve(Vec<u8>),
    /// Any other target.
    Unknown,
}

fn retrieve_prefix() -> (r: Vec<u8>)
    ensures
        r@ == spec_retrieve_prefix(),
{
    let mut v: Vec<u8> = Vec::new();
    v.push(SLASH);
    v.push(0x64);  // d
    v.push(0x72);  // r
    v.push(0x2d);  // -
    v.push(0x77);  // w
    v.push(0x68);  // h
    v.push(0x6f);  // o
    v.push(SLASH);
    proof {
        assert(v@ =~= spec_retrieve_prefix());
    }
    v
}

/// Parses a request target into one of the two served routes, or `Unknown`.
pub fn route(target: &Vec<u8>) -> (r: Route)
    ensures
        r is Home <==> spec_is_home(target@),
        r is Retrieve <==> spec_retrieve_id(target@) is Some,
        r matches Route::Retrieve(id) ==> Some(id@) == spec_retrieve_id(target@),
        r is Unknown <==> !spec_is_home(target@) && spec_retrieve_id(target@) is None,
{
    let n = target.len();
    if n == 1 && target[0] == SLASH {
        proof {
            assert(target@ =~= seq![SLASH]);
        }
        return Route::Home;
    }
    proof {
        assert(!spec_is_home(target@));
    }
    if n <= 8 {
        return Route::Unknown;
    }
    let pre = retrieve_prefix();
    let mut k: usize = 0;
    while k < 8
        invariant
            0 <= k <= 8,
            8 < target@.len(),
            pre@ == spec_retrieve_prefix(),
            forall|t: int| 0 <= t < k ==> target@[t] == pre@[t],
        decreases 8 - k,
    {
        if target[k] != pre[k] {
            proof {
                assert(target@.take(8)[k as int] != spec_retrieve_prefix()[k as int]);
            }
            return Route::Unknown;
        }
        k = k + 1;
    }
    proof {
        assert(target@.take(8) =~= spec_retrieve_prefix());
    }
    let mut id: Vec<u8> = Vec::new();
    let mut j: usize = 8;
    while j < n
        invariant
            8 <= j <= n,
            n == target@.len(),
            id@ == target@.subrange(8, j as int),
            forall|t: int| 8 <= t < j ==> target@[t] != SLASH,
        decreases n - j,
    {
        let b = target[j];
        if b == SLASH {
            return Route::Unknown;
        }
        id.push(b);
        proof {
            assert(target@.subrange(8, j as int) + seq![target@[j as int]] =~= target@.subrange(
                8,
                j as int + 1,
            ));
        }
        j = j + 1;
    }
    Route::Retrieve(id)
}

/// The bytes of `file-store`, the subdirectory holding the served files.
pub open spec fn spec_file_store_dir() -> Seq<u8> {
    seq![0x66, 0x69, 0x6c, 0x65, 0x2d, 0x73, 0x74, 0x6f, 0x72, 0x65]
}

/// The bytes of `config.json`, the mapping file's name.
pub open spec fn spec_config_file_name() -> Seq<u8> {
    seq![0x63, 0x6f, 0x6e, 0x66, 0x69, 0x67, 0x2e, 0x6a, 0x73, 0x6f, 0x6e]
}

/// The full path of a served file: `dir/file-store/rel`.
pub open spec fn spec_file_path(dir: Seq<u8>, rel: Seq<u8>) -> Seq<u8> {
    dir + seq![SLASH] + spec_file_store_dir() + seq![SLASH] + rel
}

/// The full path of the mapping file: `dir/config.json`.
pub open spec fn spec_config_path(dir: Seq<u8>) -> Seq<u8> {
    dir + seq![SLASH] + spec_config_file_name()
}

fn push_all(out: &mut Vec<u8>, src: &Vec<u8>)
    ensures
        final(out)@ == old(out)@ + src@,
{
    let ghost pre = out@;
    let mut i: usize = 0;
    while i < src.len()
        invariant
            0 <= i <= src@.len(),
            out@ == pre + src@.take(i as int),
        decreases src@.len() - i,
    {
        out.push(src[i]);
        proof {
            assert(pre + src@.take(i as int) + seq![src@[i as int]] =~= pre + src@.take(
                i as int + 1,
            ));
        }
        i = i + 1;
    }
    proof {
        assert(src@.take(src@.len() as int) =~= src@);
    }
}

fn file_store_dir() -> (r: Vec<u8>)
    ensures
        r@ == spec_file_store_dir(),
{
    let mut v: Vec<u8> = Vec::new();
    v.push(0x66);  // f
    v.push(0x69);  // i
    v.push(0x6c);  // l
    v.push(0x65);  // e
    v.push(0x2d);  // -
    v.push(0x73);  // s
    v.push(0x74);  // t
    v.push(0x6f);  // o
    v.push(0x72);  // r
    v.push(0x65);  // e
    proof {
        assert(v@ =~= spec_file_store_dir());
    }
    v
}

/// The path `dir/config.json` of the mapping file under the data directory.
pub fn config_file_path(dir: &Vec<u8>) -> (r: Vec<u8>)
    ensures
        r@ == spec_config_path(dir@),
{
    let mut name: Vec<u8> = Vec::new();
    name.push(0x63);  // c
    name.push(0x6f);  // o
    name.push(0x6e);  // n
    name.push(0x66);  // f
    name.push(0x69);  // i
    name.push(0x67);  // g
    name.push(0x2e);  // .
    name.push(0x6a);  // j
    name.push(0x73);  // s
    name.push(0x6f);  // o
    name.push(0x6e);  // n
    proof {
        assert(name@ =~= spec_config_file_name());
    }
    let mut out: Vec<u8> = Vec::new();
    push_all(&mut out, dir);
    out.push(SLASH);
    push_all(&mut out, &name);
    proof {
        assert(out@ =~= spec_config_path(dir@));
    }
    out
}

/// The path `dir/file-store/rel` of a served file.
pub fn file_store_path(dir: &Vec<u8>, rel: &Vec<u8>) -> (r: Vec<u8>)
    ensures
        r@ == spec_file_path(dir@, rel@),
{
    let store = file_store_dir();
    let mut out: Vec<u8> = Vec::new();
    push_all(&mut out, dir);
    out.push(SLASH);
    push_all(&mut out, &store);
    out.push(SLASH);
    push_all(&mut out, rel);
    proof {
        assert(out@ =~= spec_file_path(dir@, rel@));
    }
    out
}

/// The data directory: an override provided by the environment wins;
/// otherwise the compiled-in default.
pub fn data_dir(env_override: Option<Vec<u8>>, default_dir: Vec<u8>) -> (r: Vec<u8>)
    ensures
        env_override matches Some(d) ==> r@ == d@,
        env_override is None ==> r@ == default_dir@,
{
    match env_override {
        Some(d) => d,
        None => default_dir,
    }
}

/// The greeting served on the root route.
pub fn home() -> (r: String)
    ensures
        r@ == "Hello, world!"@,
{
    "Hello, world!".to_string()
}

/// The retrieval decision for `GET /dr-who/{id}`: the full path of the file
/// to open and stream, or `None` — an empty 404 — where the table has no
/// such id.
pub fn retrieve(m: &Mapping, dir: &Vec<u8>, id: &Vec<u8>) -> (r: Option<Vec<u8>>)
    ensures
        r is Some <==> m@.contains_key(id@),
        r matches Some(p) ==> p@ == spec_file_path(dir@, m@[id@]),
{
    match m.lookup(id) {
        Some(rel) => Some(file_store_path(dir, rel)),
        None => None,
    }
}

/// What the HTTP layer must do for one request target.
pub enum Action {
    /// Respond 200 with the greeting body.
    Greet,
    /// Open the file at this path and stream it with status 200; where the
    /// open fails, respond 404 with an empty body instead.
    Serve(Vec<u8>),
    /// Respond 404 with an empty body.
    NotFound,
}

/// The decision for one request: greet on `/`; on `/dr-who/{id}` serve the
/// mapped file where the id is in the table; everything else — an unknown
/// route or an unknown id — is the same empty 404.
pub fn handle_request(m: &Mapping, dir: &Vec<u8>, target: &Vec<u8>) -> (a: Action)
    ensures
        a is Greet <==> spec_is_home(target@),
        a is Serve <==> (spec_retrieve_id(target@) matches Some(id) && m@.contains_key(id)),
        a matches Action::Serve(p) ==> p@ == spec_file_path(
            dir@,
            m@[spec_retrieve_id(target@).unwrap()],
        ),
        a is NotFound <==> !spec_is_home(target@) && !(spec_retrieve_id(target@) matches Some(id)
            && m@.contains_key(id)),
{
    match route(target) {
        Route::Home => Action::Greet,
        Route::Retrieve(id) => match retrieve(m, dir, &id) {
            Some(p) => Action::Serve(p),
            None => Action::NotFound,
        },
        Route::Unknown => Action::NotFound,
    }
}

/// The status of the retrieval route: 200 exactly where the id resolved and
/// the file opened; an unknown id and an unopenable file collapse to the
/// same 404.
pub fn retrieve_status(resolved: bool, opened: bool) -> (s: u16)
    ensures
        s == 200 <==> resolved && opened,
        s == 404 <==> !(resolved && opened),
{
    if resolved && opened {
        200
    } else {
        404
    }
}

/// Law: the retrieval decision is a function of the table, the data
/// directory and the id alone — any two results that `retrieve` may return
/// for the same arguments are equal, so identical requests against the
/// unchanged table are answered identically.
pub proof fn lemma_retrieve_idempotent(
    m: Map<Seq<u8>, Seq<u8>>,
    dir: Seq<u8>,
    id: Seq<u8>,
    r1: Option<Seq<u8>>,
    r2: Option<Seq<u8>>,
)
    requires
        r1 is Some <==> m.contains_key(id),
        r1 matches Some(p) ==> p == spec_file_path(dir, m[id]),
        r2 is Some <==> m.contains_key(id),
        r2 matches Some(p) ==> p == spec_file_path(dir, m[id]),
    ensures
        r1 == r2,
{
}

} // verus!
