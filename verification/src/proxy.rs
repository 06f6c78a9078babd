//! Routing a quote request through a relay. A browser cannot fetch Yahoo directly (no CORS
//! header), so the web build sends every request through a proxy template.
use vstd::prelude::*;
use crate::symbols::{percent_encode, percent_encoded};
use crate::text::{
    chars_of, extend_chars, find, find_chars, lemma_find_occurs, lemma_find_step, owned,
    replace_all, replace_chars, shift, string_of, trim, trim_chars,
};

verus! {

/// What the web build uses unless the user says otherwise: a relay that takes the target
/// percent-encoded in a query parameter.
pub const DEFAULT_WEB_PROXY: &'static str = "https://api.allorigins.win/raw?url=%u";

/// The Daybrite relay: the target travels as a path under a logical site name.
pub const DAYBRITE_WEB_PROXY: &'static str = "https://proxy.daybrite.dev/sites/finance/%p";

/// `u` after its `scheme://`, or all of `u` when it has none.
pub open spec fn after_scheme(u: Seq<char>) -> Seq<char> {
    match find(u, "://"@) {
        Some(i) => u.skip(i + 3),
        None => u,
    }
}

/// The path and query of an absolute url without the leading slash; empty for a url that
/// has no path.
pub open spec fn path_and_query_of(u: Seq<char>) -> Seq<char> {
    let rest = after_scheme(u);
    match find(rest, seq!['/']) {
        Some(j) => rest.skip(j + 1),
        None => Seq::empty(),
    }
}

/// `url` routed through the proxy `template`: an empty template fetches directly; `%p`
/// carries the target's path and query verbatim; `%u` carries the whole target
/// percent-encoded; a template with neither is a prefix the target is appended to.
pub open spec fn routed(template: Seq<char>, url: Seq<char>) -> Seq<char> {
    let t = trim(template);
    if t.len() == 0 {
        url
    } else if find(t, "%p"@) is Some {
        replace_all(t, "%p"@, path_and_query_of(url))
    } else if find(t, "%u"@) is Some {
        replace_all(t, "%u"@, percent_encoded(url))
    } else {
        t + url
    }
}

/// The index in `u` where its path and query start, or `u`'s length when it has none.
fn path_start(u: &Vec<char>) -> (r: usize)
    ensures
        r <= u.len(),
        u@.skip(r as int) == path_and_query_of(u@),
{
    let sep = chars_of("://");
    proof {
        reveal_strlit("://");
    }
    let found = find_chars(u.as_slice(), sep.as_slice());
    proof {
        lemma_find_occurs(u@, "://"@);
        assert(u@.skip(0) =~= u@);
    }
    let start: usize = match found {
        Some(i) => {
            assert(sep@ == "://"@ && sep@.len() == 3);
            assert(i + 3 <= u.len());
            i + 3
        },
        None => 0,
    };
    assert(after_scheme(u@) == u@.skip(start as int));
    let mut j: usize = start;
    let ghost rest = u@.skip(start as int);
    assert(rest =~= u@.skip(j as int));
    while j < u.len() && u[j] != '/'
        invariant
            start <= j <= u.len(),
            rest == u@.skip(start as int),
            shift(find(rest, seq!['/']), start as int) == shift(find(u@.skip(j as int), seq!['/']), j as int),
        decreases u.len() - j,
    {
        proof {
            assert(u@.subrange(j as int, j + 1)[0] == u@[j as int]);
            lemma_find_step(u@, seq!['/'], j as int);
        }
        j = j + 1;
    }
    if j < u.len() {
        let ghost t = u@.skip(j as int);
        assert(t.take(1) =~= seq!['/']);
        assert(rest.skip(j - start + 1) =~= u@.skip(j + 1));
        j + 1
    } else {
        assert(u@.skip(j as int).len() == 0);
        assert(u@.skip(j as int) =~= Seq::<char>::empty());
        j
    }
}

/// The path and query of an absolute url, without the leading slash, so a template can end
/// in the `/` that separates it. A url with no path at all yields an empty string.
pub fn path_and_query(url: &str) -> (r: &str)
    ensures
        r@ == path_and_query_of(url@),
{
    let u = chars_of(url);
    let start = path_start(&u);
    assert(u@.subrange(start as int, u@.len() as int) =~= u@.skip(start as int));
    url.substring_char(start, u.len())
}

/// Route `url` through the proxy `template`.
pub fn proxied(template: &str, url: &str) -> (r: String)
    ensures
        r@ == routed(template@, url@),
{
    let tv = chars_of(template);
    let t = trim_chars(tv.as_slice());
    if t.len() == 0 {
        return owned(url);
    }
    let pp = chars_of("%p");
    let pu = chars_of("%u");
    proof {
        reveal_strlit("%p");
        reveal_strlit("%u");
    }
    if find_chars(t.as_slice(), pp.as_slice()).is_some() {
        let pq = chars_of(path_and_query(url));
        let out = replace_chars(t.as_slice(), pp.as_slice(), pq.as_slice());
        string_of(out.as_slice())
    } else if find_chars(t.as_slice(), pu.as_slice()).is_some() {
        let enc = percent_encode(url);
        let ev = chars_of(enc.as_str());
        let out = replace_chars(t.as_slice(), pu.as_slice(), ev.as_slice());
        string_of(out.as_slice())
    } else {
        let mut out = t;
        extend_chars(&mut out, url);
        string_of(out.as_slice())
    }
}

/// The proxy template a launch starts with: a saved template wins, even an empty one
/// ("direct"); a fresh install gets [`DEFAULT_WEB_PROXY`] on the web build and nothing
/// anywhere else.
pub fn initial_proxy(saved: Option<&str>, web: bool) -> (r: String)
    ensures
        r@ == match saved {
            Some(s) => s@,
            None => if web {
                DEFAULT_WEB_PROXY@
            } else {
                Seq::<char>::empty()
            },
        },
{
    match saved {
        Some(s) => owned(s),
        None => if web {
            owned(DEFAULT_WEB_PROXY)
        } else {
            String::new()
        },
    }
}

/// How many times `c` occurs in `s`.
pub open spec fn count_of(s: Seq<char>, c: char) -> nat
    decreases s.len(),
{
    if s.len() == 0 {
        0
    } else {
        (if s[0] == c {
            1nat
        } else {
            0nat
        }) + count_of(s.drop_first(), c)
    }
}

proof fn lemma_count_concat(a: Seq<char>, b: Seq<char>, c: char)
    ensures
        count_of(a + b, c) == count_of(a, c) + count_of(b, c),
    decreases a.len(),
{
    if a.len() > 0 {
        assert((a + b).drop_first() =~= a.drop_first() + b);
        lemma_count_concat(a.drop_first(), b, c);
    } else {
        assert(a + b =~= b);
    }
}

proof fn lemma_count_absent(s: Seq<char>, c: char)
    requires
        forall|i: int| 0 <= i < s.len() ==> s[i] != c,
    ensures
        count_of(s, c) == 0,
    decreases s.len(),
{
    if s.len() > 0 {
        assert forall|i: int| 0 <= i < s.drop_first().len() implies s.drop_first()[i] != c by {
            assert(s.drop_first()[i] == s[i + 1]);
        }
        lemma_count_absent(s.drop_first(), c);
    }
}

proof fn lemma_count_replace(s: Seq<char>, p: Seq<char>, r: Seq<char>, c: char)
    requires
        p.len() > 0,
        count_of(p, c) == 0,
        count_of(r, c) == 0,
    ensures
        count_of(replace_all(s, p, r), c) == count_of(s, c),
    decreases s.len(),
{
    if s.len() >= p.len() {
        if s.take(p.len() as int) == p {
            lemma_count_replace(s.skip(p.len() as int), p, r, c);
            lemma_count_concat(r, replace_all(s.skip(p.len() as int), p, r), c);
            assert(s =~= s.take(p.len() as int) + s.skip(p.len() as int));
            lemma_count_concat(s.take(p.len() as int), s.skip(p.len() as int), c);
        } else {
            lemma_count_replace(s.drop_first(), p, r, c);
            lemma_count_concat(seq![s[0]], replace_all(s.drop_first(), p, r), c);
            assert(s =~= seq![s[0]] + s.drop_first());
            lemma_count_concat(seq![s[0]], s.drop_first(), c);
            assert(seq![s[0]].drop_first() =~= Seq::<char>::empty());
        }
    }
}

/// The path and query a relay receives is a piece of the url it was cut from: for any url,
/// however short, it is a suffix of it, never a slice past its end.
pub proof fn lemma_path_is_suffix(u: Seq<char>)
    ensures
        exists|k: int| 0 <= k <= u.len() && path_and_query_of(u) == u.skip(k),
{
    lemma_find_occurs(u, "://"@);
    let rest = after_scheme(u);
    let s: int = match find(u, "://"@) {
        Some(i) => i + 3,
        None => 0,
    };
    reveal_strlit("://");
    assert(0 <= s <= u.len());
    assert(rest == u.skip(s)) by {
        if s == 0 {
            assert(u.skip(0) =~= u);
        }
    }
    lemma_find_occurs(rest, seq!['/']);
    match find(rest, seq!['/']) {
        Some(j) => {
            assert(0 <= j && j + 1 <= rest.len());
            assert(rest.skip(j + 1) =~= u.skip(s + j + 1));
            assert(path_and_query_of(u) == u.skip(s + j + 1));
        },
        None => {
            assert(u.skip(u.len() as int) =~= Seq::<char>::empty());
            assert(path_and_query_of(u) == u.skip(u.len() as int));
        },
    }
}

/// Through a template that takes the target percent-encoded, only the template's own query
/// survives: the routed url holds exactly as many `?` as the template does, whatever query
/// the target carries.
pub proof fn lemma_encoded_route_keeps_one_query(template: Seq<char>, url: Seq<char>)
    requires
        trim(template).len() > 0,
        find(trim(template), "%p"@) is None,
        find(trim(template), "%u"@) is Some,
    ensures
        count_of(routed(template, url), '?') == count_of(trim(template), '?'),
{
    reveal_strlit("%u");
    let enc = percent_encoded(url);
    crate::symbols::lemma_encoded_is_url_safe(vstd::utf8::encode_utf8(url));
    assert forall|i: int| 0 <= i < enc.len() implies enc[i] != '?' by {
        let c = enc[i];
        assert(c == crate::symbols::encode_bytes(vstd::utf8::encode_utf8(url))[i]);
    }
    lemma_count_absent(enc, '?');
    lemma_count_absent("%u"@, '?');
    lemma_count_replace(trim(template), "%u"@, enc, '?');
}

} // verus!
