//! The request/response model of the mini web framework: methods, requests,
//! responses, route patterns and the router table. Listening on a socket and
//! invoking handler callbacks belong to the surrounding application; the
//! library decides how a request is parsed, which route matches, and what a
//! response holds.

use vstd::prelude::*;

verus! {

use crate::strutil::chars_of;
use crate::strutil::string_of;
use crate::strutil::push_char;
use crate::strutil::str_eq;
use crate::strutil::append_str;
use crate::strutil::chars_eq;

/// The HTTP methods the framework routes on.
#[derive(Debug, Clone, PartialEq, Eq, Structural)]
pub enum Method {
    GET,
    POST,
    PUT,
    DELETE,
    PATCH,
}

impl Method {
    /// Parse an (already upper-cased) method name; unknown names are
    /// rejected.
    pub fn from_str(s: &str) -> (r: Option<Method>)
        ensures
            r == (if s@ == "GET"@ {
                Some(Method::GET)
            } else if s@ == "POST"@ {
                Some(Method::POST)
            } else if s@ == "PUT"@ {
                Some(Method::PUT)
            } else if s@ == "DELETE"@ {
                Some(Method::DELETE)
            } else if s@ == "PATCH"@ {
                Some(Method::PATCH)
            } else {
                None
            }),
    {
        if str_eq(s, "GET") {
            Some(Method::GET)
        } else if str_eq(s, "POST") {
            Some(Method::POST)
        } else if str_eq(s, "PUT") {
            Some(Method::PUT)
        } else if str_eq(s, "DELETE") {
            Some(Method::DELETE)
        } else if str_eq(s, "PATCH") {
            Some(Method::PATCH)
        } else {
            None
        }
    }
}

/// A list of name/value pairs, looked up front to back. Stands in for the
/// header, query and path-parameter tables of a request.
pub struct Pairs {
    items: Vec<(String, String)>,
}

/// First value bound to `k` in the pair list, if any.
pub open spec fn pairs_find(items: Seq<(Seq<char>, Seq<char>)>, k: Seq<char>) -> Option<
    Seq<char>,
>
    decreases items.len(),
{
    if items.len() == 0 {
        None
    } else if items[0].0 == k {
        Some(items[0].1)
    } else {
        pairs_find(items.drop_first(), k)
    }
}

impl View for Pairs {
    type V = Seq<(Seq<char>, Seq<char>)>;

    closed spec fn view(&self) -> Seq<(Seq<char>, Seq<char>)> {
        Seq::new(self.items.len() as nat, |i: int| (self.items[i].0@, self.items[i].1@))
    }
}

impl Pairs {
    /// An empty table.
    pub fn new() -> (r: Pairs)
        ensures
            r@ == Seq::<(Seq<char>, Seq<char>)>::empty(),
    {
        let r = Pairs { items: Vec::new() };
        proof {
            assert(r@ =~= Seq::<(Seq<char>, Seq<char>)>::empty());
        }
        r
    }

    /// Append a binding.
    pub fn insert(&mut self, key: String, value: String)
        ensures
            final(self)@ == old(self)@.push((key@, value@)),
    {
        self.items.push((key, value));
        proof {
            assert(final(self)@ =~= old(self)@.push((key@, value@)));
        }
    }

    /// Look up the first binding of `key`.
    pub fn get(&self, key: &str) -> (r: Option<&String>)
        ensures
            match r {
                Some(v) => pairs_find(self@, key@) == Some(v@),
                None => pairs_find(self@, key@) is None,
            },
    {
        let n = self.items.len();
        let mut i: usize = 0;
        proof {
            assert(self@.skip(0) =~= self@);
        }
        while i < n
            invariant
                n == self.items.len(),
                i <= n,
                pairs_find(self@, key@) == pairs_find(self@.skip(i as int), key@),
            decreases n - i,
        {
            proof {
                assert(self@.skip(i as int)[0] == (self.items[i as int].0@, self.items[
                i as int].1@));
                assert(self@.skip(i as int).drop_first() =~= self@.skip(i + 1));
            }
            if str_eq(self.items[i].0.as_str(), key) {
                return Some(&self.items[i].1);
            }
            i += 1;
        }
        proof {
            assert(self@.skip(n as int) =~= Seq::<(Seq<char>, Seq<char>)>::empty());
        }
        None
    }

    /// Number of bindings.
    pub fn len(&self) -> (r: usize)
        ensures
            r == self@.len(),
    {
        self.items.len()
    }
}

/// A parsed HTTP request: the driver fills it from the socket and the
/// router adds the path parameters of the matched route.
pub struct Request {
    pub method: Method,
    pub path: String,
    pub query: Pairs,
    pub headers: Pairs,
    pub body: String,
    pub params: Pairs,
}

/// An HTTP response under construction.
pub struct Response {
    pub status: u16,
    pub status_text: String,
    pub headers: Pairs,
    pub body: String,
}

impl Response {
    /// A response with the given status line, a `text/plain` content type,
    /// and an empty body.
    pub fn new(status: u16, status_text: &str) -> (r: Response)
        ensures
            r.status == status,
            r.status_text@ == status_text@,
            r.body@ == Seq::<char>::empty(),
            r.headers@.len() == 1,
            pairs_find(r.headers@, "Content-Type"@) == Some("text/plain"@),
    {
        let mut headers = Pairs::new();
        headers.insert("Content-Type".to_string(), "text/plain".to_string());
        proof {
            reveal_strlit("Content-Type");
            reveal_strlit("text/plain");
        }
        Response { status, status_text: status_text.to_string(), headers, body: String::new() }
    }

    /// 200 OK with the given body.
    pub fn ok(body: &str) -> (r: Response)
        ensures
            r.status == 200,
            r.status_text@ == "OK"@,
            r.body@ == body@,
            pairs_find(r.headers@, "Content-Type"@) == Some("text/plain"@),
    {
        let mut resp = Self::new(200, "OK");
        resp.body = body.to_string();
        resp
    }

    /// 200 OK carrying a JSON body.
    pub fn json(body: &str) -> (r: Response)
        ensures
            r.status == 200,
            r.body@ == body@,
            pairs_find(r.headers@, "Content-Type"@) == Some("application/json"@),
    {
        let mut resp = Self::ok(body);
        resp.headers = Pairs::new();
        resp.headers.insert("Content-Type".to_string(), "application/json".to_string());
        proof {
            reveal_strlit("Content-Type");
            reveal_strlit("application/json");
        }
        resp
    }

    /// 404 with its standard body.
    pub fn not_found() -> (r: Response)
        ensures
            r.status == 404,
            r.status_text@ == "Not Found"@,
            r.body@ == "404 Not Found"@,
    {
        let mut resp = Self::new(404, "Not Found");
        resp.body = "404 Not Found".to_string();
        resp
    }

    /// 500 with the diagnostic message appended to its standard body.
    pub fn internal_error(msg: &str) -> (r: Response)
        ensures
            r.status == 500,
            r.status_text@ == "Internal Server Error"@,
            r.body@ == "500 Internal Server Error: "@ + msg@,
    {
        let mut resp = Self::new(500, "Internal Server Error");
        let mut body = "500 Internal Server Error: ".to_string();
        append_str(&mut body, msg);
        resp.body = body;
        resp
    }

    /// Add (or shadow) a header, builder-style.
    pub fn header(self, key: &str, value: &str) -> (r: Response)
        ensures
            r.status == self.status,
            r.status_text == self.status_text,
            r.body == self.body,
            r.headers@ == self.headers@.push((key@, value@)),
    {
        let mut resp = self;
        resp.headers.insert(key.to_string(), value.to_string());
        resp
    }
}
/// Every `+` replaced by a space.
pub open spec fn plus_to_space(s: Seq<char>) -> Seq<char> {
    Seq::new(
        s.len(),
        |i: int|
            if s[i] == '+' {
                ' '
            } else {
                s[i]
            },
    )
}

/// Every (non-overlapping, leftmost-first) `%20` replaced by a space.
pub open spec fn unescape_spaces(s: Seq<char>) -> Seq<char>
    decreases s.len(),
{
    if s.len() == 0 {
        Seq::empty()
    } else if s.len() >= 3 && s[0] == '%' && s[1] == '2' && s[2] == '0' {
        seq![' '] + unescape_spaces(s.skip(3))
    } else {
        seq![s[0]] + unescape_spaces(s.skip(1))
    }
}

/// The URL decoding the framework performs: `+` and `%20` both become
/// spaces.
pub open spec fn decoded(s: Seq<char>) -> Seq<char> {
    unescape_spaces(plus_to_space(s))
}

/// Decode form-style escapes in `s`. Never fails; the `Option` mirrors the
/// fallible shape of fuller decoders.
pub fn decode(s: &str) -> (r: Option<String>)
    ensures
        r matches Some(t) && t@ == decoded(s@),
{
    let cs = chars_of(s);
    let n = cs.len();

    let mut ps: Vec<char> = Vec::new();
    let mut i: usize = 0;
    while i < n
        invariant
            n == cs.len(),
            i <= n,
            ps@ == plus_to_space(cs@).take(i as int),
        decreases n - i,
    {
        let c = cs[i];
        if c == '+' {
            ps.push(' ');
        } else {
            ps.push(c);
        }
        proof {
            assert(ps@ =~= plus_to_space(cs@).take(i + 1));
        }
        i += 1;
    }
    proof {
        assert(ps@ =~= plus_to_space(cs@));
    }

    let mut out: Vec<char> = Vec::new();
    let mut j: usize = 0;
    while j < n
        invariant
            n == ps.len(),
            j <= n,
            out@ + unescape_spaces(ps@.skip(j as int)) == unescape_spaces(ps@),
        decreases n - j,
    {
        proof {
            assert(ps@.skip(j as int)[0] == ps@[j as int]);
        }
        if n - j > 2 && ps[j] == '%' && ps[j + 1] == '2' && ps[j + 2] == '0' {
            out.push(' ');
            proof {
                assert(ps@.skip(j as int)[1] == ps@[j + 1]);
                assert(ps@.skip(j as int)[2] == ps@[j + 2]);
                assert(ps@.skip(j as int).skip(3) =~= ps@.skip(j + 3));
                assert(out@ + unescape_spaces(ps@.skip(j + 3)) =~= out@.drop_last() + (seq![' ']
                    + unescape_spaces(ps@.skip(j + 3))));
            }
            j += 3;
        } else {
            let c = ps[j];
            out.push(c);
            proof {
                assert(ps@.skip(j as int).skip(1) =~= ps@.skip(j + 1));
                assert(out@ + unescape_spaces(ps@.skip(j + 1)) =~= out@.drop_last() + (seq![c]
                    + unescape_spaces(ps@.skip(j + 1))));
            }
            j += 1;
        }
    }
    proof {
        assert(ps@.skip(n as int) =~= Seq::<char>::empty());
        assert(out@ =~= unescape_spaces(ps@));
    }
    Some(string_of(&out))
}


/// Split at every occurrence of `c`; `k` separators give `k + 1` segments,
/// empty segments included.
pub open spec fn split_char(s: Seq<char>, c: char) -> Seq<Seq<char>>
    decreases s.len(),
{
    if s.len() == 0 {
        seq![Seq::<char>::empty()]
    } else if s[0] == c {
        seq![Seq::<char>::empty()] + split_char(s.drop_first(), c)
    } else {
        let rest = split_char(s.drop_first(), c);
        seq![seq![s[0]] + rest[0]] + rest.drop_first()
    }
}

/// Splitting yields at least one segment.
pub proof fn lemma_split_nonempty(s: Seq<char>, c: char)
    ensures
        split_char(s, c).len() >= 1,
    decreases s.len(),
{
    if s.len() > 0 {
        lemma_split_nonempty(s.drop_first(), c);
    }
}

/// The first segment of the remainder, with `p` prefixed.
spec fn prepend_first(p: Seq<char>, ss: Seq<Seq<char>>) -> Seq<Seq<char>> {
    seq![p + ss[0]] + ss.drop_first()
}

/// The views of a vector of character vectors.
pub open spec fn seg_views(v: Seq<Vec<char>>) -> Seq<Seq<char>> {
    Seq::new(v.len(), |i: int| v[i]@)
}

/// Split a character vector at every occurrence of `c`.
pub(crate) fn split_chars(cs: &Vec<char>, c: char) -> (r: Vec<Vec<char>>)
    ensures
        seg_views(r@) == split_char(cs@, c),
{
    let n = cs.len();
    let mut out: Vec<Vec<char>> = Vec::new();
    let mut cur: Vec<char> = Vec::new();
    let mut i: usize = 0;
    proof {
        assert(cs@.skip(0) =~= cs@);
        lemma_split_nonempty(cs@, c);
        assert(seg_views(out@) + prepend_first(cur@, split_char(cs@.skip(0), c)) =~= prepend_first(
            cur@,
            split_char(cs@, c),
        ));
        assert(prepend_first(cur@, split_char(cs@, c)) =~= split_char(cs@, c)) by {
            assert(cur@ + split_char(cs@, c)[0] =~= split_char(cs@, c)[0]);
        }
    }
    while i < n
        invariant
            n == cs.len(),
            i <= n,
            seg_views(out@) + prepend_first(cur@, split_char(cs@.skip(i as int), c)) == split_char(
                cs@,
                c,
            ),
            split_char(cs@.skip(i as int), c).len() >= 1,
        decreases n - i,
    {
        let ghost pre_out = out@;
        let ghost pre_cur = cur@;
        let ghost rem = cs@.skip(i as int);
        proof {
            assert(rem[0] == cs@[i as int]);
            assert(rem.drop_first() =~= cs@.skip(i + 1));
            lemma_split_nonempty(cs@.skip(i + 1), c);
        }
        let ch = cs[i];
        if ch == c {
            out.push(cur);
            cur = Vec::new();
            proof {
                assert(split_char(rem, c) =~= seq![Seq::<char>::empty()] + split_char(
                    cs@.skip(i + 1),
                    c,
                ));
                assert(seg_views(out@) =~= seg_views(pre_out).push(pre_cur));
                assert(prepend_first(pre_cur, split_char(rem, c)) =~= seq![pre_cur] + split_char(
                    cs@.skip(i + 1),
                    c,
                ).update(0, Seq::<char>::empty() + split_char(cs@.skip(i + 1), c)[0]));
                assert(Seq::<char>::empty() + split_char(cs@.skip(i + 1), c)[0] =~= split_char(
                    cs@.skip(i + 1),
                    c,
                )[0]);
                assert(prepend_first(pre_cur, split_char(rem, c)) =~= seq![pre_cur] + split_char(
                    cs@.skip(i + 1),
                    c,
                ));
                assert(cur@ + split_char(cs@.skip(i + 1), c)[0] =~= split_char(
                    cs@.skip(i + 1),
                    c,
                )[0]);
                assert(seg_views(out@) + prepend_first(cur@, split_char(cs@.skip(i + 1), c))
                    =~= seg_views(pre_out) + prepend_first(pre_cur, split_char(rem, c)));
            }
        } else {
            cur.push(ch);
            proof {
                let rest = split_char(cs@.skip(i + 1), c);
                assert(split_char(rem, c) =~= seq![seq![ch] + rest[0]] + rest.drop_first());
                assert(cur@ + rest[0] =~= pre_cur + (seq![ch] + rest[0]));
                assert(prepend_first(cur@, rest) =~= prepend_first(
                    pre_cur,
                    split_char(rem, c),
                ));
            }
        }
        i += 1;
    }
    out.push(cur);
    proof {
        assert(cs@.skip(n as int) =~= Seq::<char>::empty());
        assert(split_char(Seq::<char>::empty(), c) =~= seq![Seq::<char>::empty()]);
        assert(seg_views(out@) =~= split_char(cs@, c));
    }
    out
}

/// The name/value pairs a query section denotes: each `&`-separated
/// parameter with exactly one `=` contributes its name and its decoded
/// value.
pub open spec fn query_pairs(params: Seq<Seq<char>>) -> Seq<(Seq<char>, Seq<char>)>
    decreases params.len(),
{
    if params.len() == 0 {
        Seq::empty()
    } else {
        let kv = split_char(params[0], '=');
        let rest = query_pairs(params.drop_first());
        if kv.len() == 2 {
            seq![(kv[0], decoded(kv[1]))] + rest
        } else {
            rest
        }
    }
}

/// Split a request target into its path and its parsed query table. The
/// path is everything before the first `?`; the query section is the text
/// between the first and second `?`.
pub fn parse_path_and_query(uri: &str) -> (r: (String, Pairs))
    ensures
        r.0@ == split_char(uri@, '?')[0],
        r.1@ == (if split_char(uri@, '?').len() > 1 {
            query_pairs(split_char(split_char(uri@, '?')[1], '&'))
        } else {
            Seq::<(Seq<char>, Seq<char>)>::empty()
        }),
{
    let cs = chars_of(uri);
    let parts = split_chars(&cs, '?');
    proof {
        lemma_split_nonempty(cs@, '?');
    }
    let path = string_of(&parts[0]);
    let mut query = Pairs::new();

    if parts.len() > 1 {
        let params = split_chars(&parts[1], '&');
        let ghost pviews = seg_views(params@);
        let m = params.len();
        let mut j: usize = 0;
        proof {
            assert(pviews.skip(0) =~= pviews);
        }
        while j < m
            invariant
                m == params.len(),
                j <= m,
                pviews == seg_views(params@),
                query@ + query_pairs(pviews.skip(j as int)) == query_pairs(pviews),
            decreases m - j,
        {
            let ghost pre = query@;
            proof {
                assert(pviews.skip(j as int)[0] == pviews[j as int]);
                assert(pviews.skip(j as int).drop_first() =~= pviews.skip(j + 1));
            }
            let kv = split_chars(&params[j], '=');
            if kv.len() == 2 {
                let name = string_of(&kv[0]);
                let value = match decode(string_of(&kv[1]).as_str()) {
                    Some(v) => v,
                    None => String::new(),
                };
                query.insert(name, value);
                proof {
                    assert(query@ + query_pairs(pviews.skip(j + 1)) =~= pre + (seq![
                        (seg_views(kv@)[0], decoded(seg_views(kv@)[1]))
                    ] + query_pairs(pviews.skip(j + 1))));
                }
            }
            j += 1;
        }
        proof {
            assert(pviews.skip(m as int) =~= Seq::<(Seq<char>)>::empty());
            assert(query_pairs(pviews.skip(m as int)) =~= Seq::<(Seq<char>, Seq<char>)>::empty());
            assert(query@ =~= query_pairs(pviews));
        }
    }

    (path, query)
}

/// Match pattern segments against path segments: a segment beginning with
/// `:` binds the rest of its text to the path segment, any other segment
/// must be identical. Yields the bindings in order, or nothing on a
/// mismatch.
pub open spec fn match_segments(pp: Seq<Seq<char>>, qq: Seq<Seq<char>>) -> Option<
    Seq<(Seq<char>, Seq<char>)>,
>
    decreases pp.len(),
{
    if pp.len() == 0 {
        Some(Seq::empty())
    } else if pp[0].len() > 0 && pp[0][0] == ':' {
        match match_segments(pp.drop_first(), qq.drop_first()) {
            None => None,
            Some(ps) => Some(seq![(pp[0].drop_first(), qq[0])] + ps),
        }
    } else if pp[0] == qq[0] {
        match_segments(pp.drop_first(), qq.drop_first())
    } else {
        None
    }
}

/// What a route pattern yields for a request path: segment-wise matching
/// after splitting both on `/`, with equal segment counts required.
pub open spec fn route_match(pattern: Seq<char>, path: Seq<char>) -> Option<
    Seq<(Seq<char>, Seq<char>)>,
> {
    let pp = split_char(pattern, '/');
    let qq = split_char(path, '/');
    if pp.len() != qq.len() {
        None
    } else {
        match_segments(pp, qq)
    }
}

/// One routing-table entry: a method and a pattern such as `/hello/:name`.
pub struct Route {
    pub method: Method,
    pub pattern: String,
}

impl Route {
    /// Match a request against this route; on success the bindings of the
    /// pattern's `:name` segments are returned.
    pub fn matches(&self, method: &Method, path: &str) -> (r: Option<Pairs>)
        ensures
            *method != self.method ==> r is None,
            *method == self.method ==> match r {
                None => route_match(self.pattern@, path@) is None,
                Some(params) => route_match(self.pattern@, path@) == Some(params@),
            },
    {
        if !(*method == self.method) {
            return None;
        }

        let pcs = chars_of(self.pattern.as_str());
        let qcs = chars_of(path);
        let pp = split_chars(&pcs, '/');
        let qq = split_chars(&qcs, '/');
        let ghost ppv = seg_views(pp@);
        let ghost qqv = seg_views(qq@);

        if pp.len() != qq.len() {
            return None;
        }

        let n = pp.len();
        let mut params = Pairs::new();
        let mut i: usize = 0;
        proof {
            assert(ppv.skip(0) =~= ppv);
            assert(qqv.skip(0) =~= qqv);
        }
        while i < n
            invariant
                n == pp.len() && n == qq.len(),
                i <= n,
                ppv == seg_views(pp@) && qqv == seg_views(qq@),
                ppv.len() == n && qqv.len() == n,
                match match_segments(ppv.skip(i as int), qqv.skip(i as int)) {
                    None => route_match(self.pattern@, path@) is None,
                    Some(ps) => route_match(self.pattern@, path@) == Some(params@ + ps),
                },
            decreases n - i,
        {
            proof {
                assert(ppv.skip(i as int)[0] == ppv[i as int]);
                assert(qqv.skip(i as int)[0] == qqv[i as int]);
                assert(ppv.skip(i as int).drop_first() =~= ppv.skip(i + 1));
                assert(qqv.skip(i as int).drop_first() =~= qqv.skip(i + 1));
            }
            let part = &pp[i];
            if part.len() > 0 && part[0] == ':' {
                let mut name: Vec<char> = Vec::new();
                let mut t: usize = 1;
                while t < part.len()
                    invariant
                        1 <= t <= part.len(),
                        name@ == part@.subrange(1, t as int),
                        part == pp[i as int],
                        i < pp@.len(),
                    decreases part.len() - t,
                {
                    name.push(part[t]);
                    proof {
                        assert(name@ =~= part@.subrange(1, t + 1));
                    }
                    t += 1;
                }
                proof {
                    assert(name@ =~= ppv[i as int].drop_first());
                }
                params.insert(string_of(&name), string_of(&qq[i]));
                proof {
                    let tail = match_segments(ppv.skip(i + 1), qqv.skip(i + 1));
                    if tail is Some {
                        assert(params@ + tail.unwrap() =~= (params@.drop_last() + (seq![
                            (ppv[i as int].drop_first(), qqv[i as int])
                        ] + tail.unwrap())));
                    }
                }
            } else {
                if !chars_eq(&pp[i], &qq[i]) {
                    return None;
                }
            }
            i += 1;
        }
        proof {
            assert(ppv.skip(n as int) =~= Seq::<Seq<char>>::empty());
            assert(match_segments(ppv.skip(n as int), qqv.skip(n as int)) == Some(
                Seq::<(Seq<char>, Seq<char>)>::empty(),
            ));
            assert(params@ + Seq::<(Seq<char>, Seq<char>)>::empty() =~= params@);
        }
        Some(params)
    }
}
/// The routing table: routes are consulted in registration order.
pub struct Router {
    pub routes: Vec<Route>,
}

impl Router {
    /// An empty routing table.
    pub fn new() -> (r: Router)
        ensures
            r.routes@.len() == 0,
    {
        Router { routes: Vec::new() }
    }

    /// Register a `GET` route for `pattern`.
    pub fn get(&mut self, pattern: &str)
        ensures
            final(self).routes@.len() == old(self).routes@.len() + 1,
            final(self).routes@.last().method == Method::GET,
            final(self).routes@.last().pattern@ == pattern@,
            final(self).routes@.take(old(self).routes@.len() as int) == old(self).routes@,
    {
        self.routes.push(Route { method: Method::GET, pattern: pattern.to_string() });
        proof {
            assert(final(self).routes@.take(old(self).routes@.len() as int) =~= old(self).routes@);
        }
    }

    /// Register a `POST` route for `pattern`.
    pub fn post(&mut self, pattern: &str)
        ensures
            final(self).routes@.len() == old(self).routes@.len() + 1,
            final(self).routes@.last().method == Method::POST,
            final(self).routes@.last().pattern@ == pattern@,
            final(self).routes@.take(old(self).routes@.len() as int) == old(self).routes@,
    {
        self.routes.push(Route { method: Method::POST, pattern: pattern.to_string() });
        proof {
            assert(final(self).routes@.take(old(self).routes@.len() as int) =~= old(self).routes@);
        }
    }

    /// Find the first route matching the request, together with its path
    /// parameters; the index tells the application which handler to run.
    pub fn find_route(&self, method: &Method, path: &str) -> (r: Option<(usize, Pairs)>)
        ensures
            match r {
                Some((idx, params)) => {
                    &&& idx < self.routes@.len()
                    &&& self.routes@[idx as int].method == *method
                    &&& route_match(self.routes@[idx as int].pattern@, path@) == Some(params@)
                    &&& forall|j: int|
                        0 <= j < idx ==> !(self.routes@[j].method == *method && route_match(
                            (#[trigger] self.routes@[j]).pattern@,
                            path@,
                        ) is Some)
                },
                None => forall|j: int|
                    0 <= j < self.routes@.len() ==> !(self.routes@[j].method == *method
                        && route_match((#[trigger] self.routes@[j]).pattern@, path@) is Some),
            },
    {
        let n = self.routes.len();
        let mut i: usize = 0;
        while i < n
            invariant
                n == self.routes@.len(),
                i <= n,
                forall|j: int|
                    0 <= j < i ==> !(self.routes@[j].method == *method && route_match(
                        (#[trigger] self.routes@[j]).pattern@,
                        path@,
                    ) is Some),
            decreases n - i,
        {
            match self.routes[i].matches(method, path) {
                Some(params) => {
                    return Some((i, params));
                },
                None => {},
            }
            i += 1;
        }
        None
    }
}
} // verus!
