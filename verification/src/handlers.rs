//! What the service answers to each request, given the request's plain
//! parts: the path, the method, the listing parameters and the events of an
//! upload's body.

use vstd::prelude::*;
use vstd::string::StrSliceExecFns;
use axum::body::Bytes;
use crate::app_state::{list_pred, listed, string_views, AppState};
use crate::keys::in_list_range;
use crate::chunk::bytes_contents;
use crate::keys::chars_of;
use crate::segment::Segment;

verus! {

/// The status of a reply.
#[derive(PartialEq, Eq, Structural, Clone, Copy, Debug)]
pub enum Status {
    Success,
    BadRequest,
    NotFound,
    MethodNotAllowed,
}

/// A reply: a status and a text body.
#[derive(Debug)]
pub struct Reply {
    pub status: Status,
    pub body: String,
}

/// The parameters of a listing: how many paths to give at most, and how
/// many of the selected paths to pass over first.
#[derive(Clone, Copy, Debug)]
pub struct ListParams {
    pub limit: Option<usize>,
    pub offset: Option<usize>,
}

/// What reading an upload's body gave next.
pub enum BodyEvent {
    /// A chunk of the body.
    Data(Bytes),
    /// Reading the body failed, with this message.
    Failed(String),
    /// The body is complete.
    Finished,
}

/// The limit of a listing when none is given.
pub const DEFAULT_LIST_LIMIT: usize = 10000;

/// The most paths that one listing gives.
pub const MAX_LIST_LIMIT: usize = 100000;

/// The number of selected paths that a listing passes over.
pub open spec fn list_offset(params: ListParams) -> int {
    match params.offset {
        Some(o) => o as int,
        None => 0,
    }
}

/// The number of paths that a listing gives at most.
pub open spec fn list_limit(params: ListParams) -> int {
    let l = match params.limit {
        Some(l) => l as int,
        None => DEFAULT_LIST_LIMIT as int,
    };
    if l < MAX_LIST_LIMIT { l } else { MAX_LIST_LIMIT as int }
}

/// `s` without the copies of `c` it starts with.
pub open spec fn strip_leading(s: Seq<char>, c: char) -> Seq<char>
    decreases s.len(),
{
    if s.len() > 0 && s[0] == c {
        strip_leading(s.drop_first(), c)
    } else {
        s
    }
}

/// `s` without the copies of `c` it ends with.
pub open spec fn strip_trailing(s: Seq<char>, c: char) -> Seq<char>
    decreases s.len(),
{
    if s.len() > 0 && s.last() == c {
        strip_trailing(s.drop_last(), c)
    } else {
        s
    }
}

/// The path that a listing request for `uri_path` lists under: without its
/// leading `/`s and its trailing `*`s.
pub open spec fn list_path(uri_path: Seq<char>) -> Seq<char> {
    strip_trailing(strip_leading(uri_path, '/'), '*')
}

/// The lines of `lines`, each but the last followed by `sep`.
pub open spec fn joined(lines: Seq<Seq<char>>, sep: Seq<char>) -> Seq<char>
    decreases lines.len(),
{
    if lines.len() == 0 {
        Seq::empty()
    } else if lines.len() == 1 {
        lines[0]
    } else {
        joined(lines.drop_last(), sep) + sep + lines.last()
    }
}

proof fn lemma_strip_leading_skip(s: Seq<char>, c: char, i: int)
    requires
        0 <= i < s.len(),
        s[i] == c,
    ensures
        strip_leading(s.skip(i), c) == strip_leading(s.skip(i + 1), c),
{
    assert(s.skip(i).drop_first() =~= s.skip(i + 1));
}

proof fn lemma_strip_trailing_take(s: Seq<char>, c: char, j: int)
    requires
        0 < j <= s.len(),
        s[j - 1] == c,
    ensures
        strip_trailing(s.take(j), c) == strip_trailing(s.take(j - 1), c),
{
    assert(s.take(j).drop_last() =~= s.take(j - 1));
}

/// The path that a listing request for `uri_path` lists under.
pub fn trim_list_path(uri_path: &str) -> (r: String)
    ensures
        r@ == list_path(uri_path@),
{
    let chars = chars_of(uri_path);
    let n = chars.len();
    let mut i: usize = 0;
    assert(uri_path@.skip(0) =~= uri_path@);
    while i < n && chars[i] == '/'
        invariant
            chars@ == uri_path@,
            n == chars@.len(),
            i <= n,
            strip_leading(uri_path@, '/') == strip_leading(uri_path@.skip(i as int), '/'),
        decreases n - i,
    {
        proof {
            lemma_strip_leading_skip(uri_path@, '/', i as int);
        }
        i = i + 1;
    }
    let ghost rest = uri_path@.skip(i as int);
    assert(strip_leading(rest, '/') == rest);
    let mut j: usize = n;
    assert(rest.take((n - i) as int) =~= rest);
    while j > i && chars[j - 1] == '*'
        invariant
            chars@ == uri_path@,
            n == chars@.len(),
            i <= j <= n,
            rest == uri_path@.skip(i as int),
            strip_trailing(rest, '*') == strip_trailing(rest.take(j - i), '*'),
        decreases j,
    {
        proof {
            assert(rest[j - i - 1] == chars@[j - 1]);
            lemma_strip_trailing_take(rest, '*', j - i);
        }
        j = j - 1;
    }
    let ghost kept = rest.take(j - i);
    assert(kept.len() == 0 || kept.last() != '*') by {
        if kept.len() > 0 {
            assert(kept.last() == chars@[j - 1]);
        }
    }
    assert(strip_trailing(kept, '*') == kept);
    let r = uri_path.substring_char(i, j).to_owned();
    assert(r@ =~= kept);
    r
}

/// The lines of `lines`, joined by `sep`.
pub fn join_lines(lines: &Vec<String>, sep: &str) -> (r: String)
    ensures
        r@ == joined(string_views(lines@), sep@),
{
    let mut r = String::new();
    let n = lines.len();
    let mut i: usize = 0;
    while i < n
        invariant
            n == lines@.len(),
            i <= n,
            r@ == joined(string_views(lines@).take(i as int), sep@),
        decreases n - i,
    {
        let ghost before = string_views(lines@).take(i as int);
        let ghost after = string_views(lines@).take(i + 1);
        assert(after.drop_last() =~= before);
        assert(after.last() == lines@[i as int]@);
        if i > 0 {
            r.append(sep);
        } else {
            assert(r@ =~= Seq::<char>::empty());
        }
        r.append(lines[i].as_str());
        i = i + 1;
    }
    assert(string_views(lines@).take(n as int) =~= string_views(lines@));
    r
}

/// Registers `segment` under `path` for an upload, in place of any segment
/// registered there before. The upload's body then goes to the segment
/// through `upload_step`.
pub fn handle_put<S>(state: &mut AppState<S>, path: String, segment: S)
    requires
        old(state).wf(),
    ensures
        final(state).wf(),
        final(state)@ == old(state)@.insert(path@, segment),
{
    state.insert(path, segment);
}

/// Takes the next event of an upload's body into its segment: a chunk is
/// appended and the upload goes on; a failure or the end closes the
/// segment and answers the upload.
pub fn upload_step(segment: &mut Segment, event: BodyEvent) -> (r: Option<Reply>)
    ensures
        match event {
            BodyEvent::Data(b) => {
                &&& final(segment)@ == old(segment)@.add_chunk(bytes_contents(b))
                &&& r is None
            },
            BodyEvent::Failed(msg) => {
                &&& final(segment)@ == old(segment)@.close()
                &&& r matches Some(reply) && reply.status == Status::BadRequest && reply.body@ == msg@
            },
            BodyEvent::Finished => {
                &&& final(segment)@ == old(segment)@.close()
                &&& r matches Some(reply) && reply.status == Status::Success && reply.body@ == "ok"@
            },
        },
{
    match event {
        BodyEvent::Data(b) => {
            segment.add_chunk(b);
            None
        },
        BodyEvent::Failed(msg) => {
            segment.close();
            Some(Reply { status: Status::BadRequest, body: msg })
        },
        BodyEvent::Finished => {
            segment.close();
            Some(Reply { status: Status::Success, body: "ok".to_owned() })
        },
    }
}

/// The segment that a download of `path` streams, or the reply that there
/// is none.
pub fn handle_get<'a, S>(state: &'a AppState<S>, path: &str) -> (r: Result<&'a S, Reply>)
    requires
        state.wf(),
    ensures
        match r {
            Ok(s) => state@.contains_key(path@) && *s == state@[path@],
            Err(reply) => !state@.contains_key(path@) && reply.status == Status::NotFound
                && reply.body@ == "not found"@,
        },
{
    match state.get(path) {
        Some(s) => Ok(s),
        None => Err(Reply { status: Status::NotFound, body: "not found".to_owned() }),
    }
}

/// Deletes the segment under `path`.
pub fn handle_delete<S>(state: &mut AppState<S>, path: &str) -> (r: Reply)
    requires
        old(state).wf(),
    ensures
        final(state).wf(),
        final(state)@ == old(state)@.remove(path@),
        old(state)@.contains_key(path@) ==> r.status == Status::Success && r.body@ == "ok"@,
        !old(state)@.contains_key(path@) ==> r.status == Status::NotFound && r.body@ == "not found"@,
{
    match state.remove(path) {
        Some(_) => Reply { status: Status::Success, body: "ok".to_owned() },
        None => Reply { status: Status::NotFound, body: "not found".to_owned() },
    }
}

/// The paths stored under the path of the request, one per line, from the
/// offset on and at most the limit of the parameters.
pub fn handle_list<S>(state: &AppState<S>, uri_path: &str, params: ListParams) -> (r: Reply)
    requires
        state.wf(),
    ensures
        r.status == Status::Success,
        r.body@ == joined(
            listed(state.paths(), list_path(uri_path@), list_offset(params), list_limit(params)),
            seq!['\n'],
        ),
{
    let from = trim_list_path(uri_path);
    let offset = match params.offset {
        Some(o) => o,
        None => 0,
    };
    let requested = match params.limit {
        Some(l) => l,
        None => DEFAULT_LIST_LIMIT,
    };
    let limit = if requested < MAX_LIST_LIMIT { requested } else { MAX_LIST_LIMIT };
    let lines = state.list(from.as_str(), offset, limit);
    let sep = "\n";
    proof {
        reveal_strlit("\n");
    }
    assert(sep@ =~= seq!['\n']);
    let body = join_lines(&lines, sep);
    Reply { status: Status::Success, body }
}

/// Answers a request of any other method: a listing for the method `LIST`,
/// and a refusal for every other.
pub fn handle_any<S>(state: &AppState<S>, method: &str, uri_path: &str, params: ListParams) -> (r: Reply)
    requires
        state.wf(),
    ensures
        method@ == "LIST"@ ==> r.status == Status::Success && r.body@ == joined(
            listed(state.paths(), list_path(uri_path@), list_offset(params), list_limit(params)),
            seq!['\n'],
        ),
        method@ != "LIST"@ ==> r.status == Status::MethodNotAllowed && r.body@ == Seq::<char>::empty(),
{
    if method.to_owned() == "LIST".to_owned() {
        handle_list(state, uri_path, params)
    } else {
        Reply { status: Status::MethodNotAllowed, body: String::new() }
    }
}

/// After an upload to `path` is registered, a download of `path` finds the
/// segment of that upload, and every other path finds what it found before.
pub proof fn lemma_get_after_put<S>(before: &AppState<S>, after: &AppState<S>, path: Seq<char>, segment: S, other: Seq<char>)
    requires
        after@ == before@.insert(path, segment),
    ensures
        after@.contains_key(path),
        after@[path] == segment,
        other != path ==> (after@.contains_key(other) == before@.contains_key(other)),
        other != path && before@.contains_key(other) ==> after@[other] == before@[other],
{
}

/// After `path` is deleted, a download or a delete of `path` is answered that
/// it is not found, and every other path finds what it found before.
pub proof fn lemma_get_after_delete<S>(before: &AppState<S>, after: &AppState<S>, path: Seq<char>, other: Seq<char>)
    requires
        after@ == before@.remove(path),
    ensures
        !after@.contains_key(path),
        other != path ==> (after@.contains_key(other) == before@.contains_key(other)),
        other != path && before@.contains_key(other) ==> after@[other] == before@[other],
{
}

/// A listing from the start with a limit no smaller than the number of
/// paths in its range gives every stored path in its range.
pub proof fn lemma_listing_complete<S>(state: &AppState<S>, from: Seq<char>, path: Seq<char>, limit: int)
    requires
        state.wf(),
        state@.contains_key(path),
        in_list_range(from, path),
        state.paths().filter(list_pred(from)).len() <= limit,
    ensures
        listed(state.paths(), from, 0, limit).contains(path),
{
    state.lemma_paths_match_segments();
    assert(state.paths().to_set().contains(path));
    let i = choose|i: int| 0 <= i < state.paths().len() && state.paths()[i] == path;
    state.paths().lemma_filter_contains(list_pred(from), i);
    let f = state.paths().filter(list_pred(from));
    assert(listed(state.paths(), from, 0, limit) =~= f);
}

/// `s` is `k` copies of `c` followed by `strip_leading(s, c)`, which does
/// not start with `c`.
proof fn lemma_strip_leading_is_skip(s: Seq<char>, c: char) -> (k: int)
    ensures
        0 <= k <= s.len(),
        forall|i: int| 0 <= i < k ==> s[i] == c,
        k < s.len() ==> s[k] != c,
        strip_leading(s, c) == s.skip(k),
    decreases s.len(),
{
    if s.len() > 0 && s[0] == c {
        let k1 = lemma_strip_leading_is_skip(s.drop_first(), c);
        assert(s.drop_first().skip(k1) =~= s.skip(k1 + 1));
        assert forall|i: int| 0 <= i < k1 + 1 implies s[i] == c by {
            if i > 0 {
                assert(s[i] == s.drop_first()[i - 1]);
            }
        }
        k1 + 1
    } else {
        assert(s.skip(0) =~= s);
        0
    }
}

/// `s` is `strip_trailing(s, c)`, which does not end with `c`, followed by
/// `m` copies of `c`.
proof fn lemma_strip_trailing_is_take(s: Seq<char>, c: char) -> (m: int)
    ensures
        0 <= m <= s.len(),
        forall|i: int| s.len() - m <= i < s.len() ==> s[i] == c,
        m < s.len() ==> s[s.len() - m - 1] != c,
        strip_trailing(s, c) == s.take(s.len() - m),
    decreases s.len(),
{
    if s.len() > 0 && s.last() == c {
        let m1 = lemma_strip_trailing_is_take(s.drop_last(), c);
        assert(s.drop_last().take(s.drop_last().len() - m1) =~= s.take(s.len() - (m1 + 1)));
        assert forall|i: int| s.len() - (m1 + 1) <= i < s.len() implies s[i] == c by {
            if i < s.len() - 1 {
                assert(s[i] == s.drop_last()[i]);
            }
        }
        if m1 + 1 < s.len() {
            assert(s[s.len() - (m1 + 1) - 1] == s.drop_last()[s.drop_last().len() - m1 - 1]);
        }
        m1 + 1
    } else {
        assert(s.take(s.len() as int) =~= s);
        0
    }
}

/// The path that a listing request lists under is the request's path with
/// all its leading `/`s and then all its trailing `*`s cut off, and nothing
/// else changed: a contiguous part of the request's path that does not
/// start with `/` (unless nothing is left) and does not end with `*`.
pub proof fn lemma_list_path_trims(u: Seq<char>) -> (cut: (int, int))
    ensures
        0 <= cut.0,
        0 <= cut.1,
        cut.0 + cut.1 <= u.len(),
        forall|i: int| 0 <= i < cut.0 ==> u[i] == '/',
        forall|i: int| u.len() - cut.1 <= i < u.len() ==> u[i] == '*',
        cut.0 < u.len() ==> u[cut.0] != '/',
        cut.0 < u.len() - cut.1 ==> u[u.len() - cut.1 - 1] != '*',
        list_path(u) == u.subrange(cut.0, u.len() - cut.1),
{
    let k = lemma_strip_leading_is_skip(u, '/');
    let l = u.skip(k);
    let m = lemma_strip_trailing_is_take(l, '*');
    assert forall|i: int| u.len() - m <= i < u.len() implies #[trigger] u[i] == '*' by {
        assert(u[i] == l[i - k]);
    }
    if k < u.len() - m {
        assert(u[u.len() - m - 1] == l[l.len() - m - 1]);
    }
    assert(l.take(l.len() - m) =~= u.subrange(k, u.len() - m));
    (k, m)
}

/// A listing for `params` gives the selected paths (those in the range of
/// `from`, in key order) starting `offset` into them, `0` when no offset is
/// given; and as many of them as the limit says, `10000` when no limit is
/// given and never more than `100000`, or all that are left past the
/// offset when fewer are.
pub proof fn lemma_list_params(paths: Seq<Seq<char>>, from: Seq<char>, params: ListParams)
    ensures
        ({
            let sel = paths.filter(list_pred(from));
            let res = listed(paths, from, list_offset(params), list_limit(params));
            let a: int = match params.offset {
                Some(o) => o as int,
                None => 0,
            };
            let n: int = match params.limit {
                Some(l) => if l < 100000 { l as int } else { 100000 },
                None => 10000,
            };
            &&& res.len() == (if a >= sel.len() { 0 } else if sel.len() - a < n { sel.len() - a } else { n })
            &&& forall|i: int| 0 <= i < res.len() ==> #[trigger] res[i] == sel[a + i]
        }),
{
}

/// Without a limit, a listing goes as it does with the limit `10000`, with
/// the same offset.
pub proof fn lemma_list_default_limit(paths: Seq<Seq<char>>, from: Seq<char>, offset: Option<usize>)
    ensures
        listed(
            paths,
            from,
            list_offset(ListParams { limit: None, offset }),
            list_limit(ListParams { limit: None, offset }),
        ) == listed(
            paths,
            from,
            list_offset(ListParams { limit: Some(10000), offset }),
            list_limit(ListParams { limit: Some(10000), offset }),
        ),
{
}

/// Joining two runs of lines is joining each and putting the separator
/// between them once: no separator before the first line or after the last.
pub proof fn lemma_joined_append(a: Seq<Seq<char>>, b: Seq<Seq<char>>, sep: Seq<char>)
    requires
        a.len() > 0,
        b.len() > 0,
    ensures
        joined(a + b, sep) == joined(a, sep) + sep + joined(b, sep),
    decreases b.len(),
{
    if b.len() == 1 {
        assert((a + b).drop_last() =~= a);
        assert((a + b).last() == b[0]);
    } else {
        lemma_joined_append(a, b.drop_last(), sep);
        assert((a + b).drop_last() =~= a + b.drop_last());
        assert((a + b).last() == b.last());
        assert(joined(a, sep) + sep + joined(b.drop_last(), sep) + sep + b.last()
            =~= joined(a, sep) + sep + (joined(b.drop_last(), sep) + sep + b.last()));
    }
}

/// A single line joins to itself, and no lines to nothing.
pub proof fn lemma_joined_small(line: Seq<char>, sep: Seq<char>)
    ensures
        joined(seq![line], sep) == line,
        joined(Seq::<Seq<char>>::empty(), sep) == Seq::<char>::empty(),
{
}

} // verus!
