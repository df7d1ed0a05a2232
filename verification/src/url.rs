//! Canonical same-host URLs: `scheme://host[/path]` with no fragment and no
//! trailing slash. The textual rendering is both the journal wire format and
//! the dedup identity.

use vstd::prelude::*;
use vstd::string::StrSliceExecFns;
use vstd::string::StringExecFns;

verus! {

/// Why a piece of text was rejected as a URL or as a reference.
#[derive(Debug, Clone, Copy, PartialEq, Eq, Structural)]
pub enum UrlError {
    MissingScheme,
    InvalidScheme,
    MissingHost,
    UnexpectedFormat,
    DifferentSchemeOrHost,
}

#[derive(Debug, Clone, Copy, PartialEq, Eq, Hash, Structural)]
pub enum UrlScheme {
    HTTP,
    HTTPS,
}

impl UrlScheme {
    /// The scheme's lowercase name.
    pub fn render(&self) -> (r: String)
        ensures
            r@ == scheme_chars(*self),
    {
        proof {
            reveal_strlit("http");
            reveal_strlit("https");
        }
        let r = match self {
            UrlScheme::HTTP => String::from_str("http"),
            UrlScheme::HTTPS => String::from_str("https"),
        };
        proof {
            assert(r@ =~= scheme_chars(*self));
        }
        r
    }
}

/// The mathematical value of a `Url`: its three canonical fields.
#[verifier::ext_equal]
pub ghost struct UrlView {
    pub scheme: UrlScheme,
    pub host: Seq<char>,
    pub path: Option<Seq<char>>,
}

/// Canonical URL. `path` never holds a fragment, never ends in `/`, and is
/// `None` rather than empty.
#[derive(Debug, Hash)]
pub struct Url {
    pub scheme: UrlScheme,
    pub host: String,
    pub path: Option<String>,
}

impl View for Url {
    type V = UrlView;

    open spec fn view(&self) -> UrlView {
        UrlView {
            scheme: self.scheme,
            host: self.host@,
            path: match self.path {
                Some(p) => Some(p@),
                None => None,
            },
        }
    }
}

impl Clone for Url {
    fn clone(&self) -> (r: Self)
        ensures
            r == *self,
    {
        Url {
            scheme: self.scheme,
            host: self.host.clone(),
            path: match &self.path {
                Some(p) => Some(p.clone()),
                None => None,
            },
        }
    }
}

impl PartialEq for Url {
    fn eq(&self, other: &Url) -> (r: bool) {
        let paths_eq = match (&self.path, &other.path) {
            (None, None) => true,
            (Some(a), Some(b)) => a.eq(b),
            _ => false,
        };
        self.scheme == other.scheme && self.host.eq(&other.host) && paths_eq
    }
}

impl vstd::std_specs::cmp::PartialEqSpecImpl for Url {
    open spec fn obeys_eq_spec() -> bool {
        true
    }

    open spec fn eq_spec(&self, other: &Url) -> bool {
        self@ == other@
    }
}

impl Eq for Url {}

/// The characters of a scheme's lowercase name.
pub open spec fn scheme_chars(s: UrlScheme) -> Seq<char> {
    match s {
        UrlScheme::HTTP => seq!['h', 't', 't', 'p'],
        UrlScheme::HTTPS => seq!['h', 't', 't', 'p', 's'],
    }
}

/// The `://` separator between scheme and authority.
pub open spec fn sep_chars() -> Seq<char> {
    seq![':', '/', '/']
}

/// `s` holds `://` starting at index `i`.
pub open spec fn is_sep_at(s: Seq<char>, i: int) -> bool {
    &&& 0 <= i
    &&& i + 3 <= s.len()
    &&& s[i] == ':'
    &&& s[i + 1] == '/'
    &&& s[i + 2] == '/'
}

/// Index of the first `://` at or after `i`, if any.
pub open spec fn find_sep_from(s: Seq<char>, i: int) -> Option<int>
    decreases s.len() - i,
{
    if i < 0 || i + 3 > s.len() {
        None
    } else if is_sep_at(s, i) {
        Some(i)
    } else {
        find_sep_from(s, i + 1)
    }
}

/// Index of the first occurrence of `c` at or after `i`, if any.
pub open spec fn find_char_from(s: Seq<char>, c: char, i: int) -> Option<int>
    decreases s.len() - i,
{
    if i < 0 || i >= s.len() {
        None
    } else if s[i] == c {
        Some(i)
    } else {
        find_char_from(s, c, i + 1)
    }
}

/// Remove every trailing `/`.
pub open spec fn trim_trailing_slashes(s: Seq<char>) -> Seq<char>
    decreases s.len(),
{
    if s.len() > 0 && s[s.len() - 1] == '/' {
        trim_trailing_slashes(s.drop_last())
    } else {
        s
    }
}

/// The prefix before the first `#`, or all of `s` when it has none.
pub open spec fn strip_fragment(s: Seq<char>) -> Seq<char> {
    match find_char_from(s, '#', 0) {
        Some(i) => s.subrange(0, i),
        None => s,
    }
}

/// Normalize a raw path: drop the fragment, drop trailing slashes, and store
/// an empty result as an absent path.
pub open spec fn normalize_path(raw: Seq<char>) -> Option<Seq<char>> {
    let p = trim_trailing_slashes(strip_fragment(raw));
    if p.len() == 0 {
        None
    } else {
        Some(p)
    }
}

/// Split what follows `scheme://` into host and normalized path.
pub open spec fn parse_authority(scheme: UrlScheme, rest: Seq<char>) -> Result<UrlView, UrlError> {
    let trimmed = strip_fragment(rest);
    let host_end = match find_char_from(trimmed, '/', 0) {
        Some(i) => i,
        None => trimmed.len() as int,
    };
    let host = trimmed.subrange(0, host_end);
    if host.len() == 0 {
        Err(UrlError::MissingHost)
    } else {
        let raw = if host_end < trimmed.len() {
            trimmed.subrange(host_end + 1, trimmed.len() as int)
        } else {
            Seq::<char>::empty()
        };
        let path = trim_trailing_slashes(raw);
        Ok(
            UrlView {
                scheme,
                host,
                path: if path.len() == 0 {
                    None
                } else {
                    Some(path)
                },
            },
        )
    }
}

/// What `Url::parse` returns, as a function of the input characters.
pub open spec fn parse_url(s: Seq<char>) -> Result<UrlView, UrlError> {
    match find_sep_from(s, 0) {
        None => Err(UrlError::MissingScheme),
        Some(i) => {
            let scheme_part = s.subrange(0, i);
            let rest = s.subrange(i + 3, s.len() as int);
            if scheme_part == scheme_chars(UrlScheme::HTTP) {
                parse_authority(UrlScheme::HTTP, rest)
            } else if scheme_part == scheme_chars(UrlScheme::HTTPS) {
                parse_authority(UrlScheme::HTTPS, rest)
            } else {
                Err(UrlError::InvalidScheme)
            }
        },
    }
}

/// The canonical textual form: `scheme://host` or `scheme://host/path`.
pub open spec fn render_url(u: UrlView) -> Seq<char> {
    scheme_chars(u.scheme) + sep_chars() + u.host + (match u.path {
        Some(p) => seq!['/'] + p,
        None => Seq::<char>::empty(),
    })
}

/// `p` is a prefix of `s`.
pub open spec fn starts_with(s: Seq<char>, p: Seq<char>) -> bool {
    s.len() >= p.len() && s.subrange(0, p.len() as int) == p
}

/// What `Url::new_with_base` returns, as a function of the base and the
/// reference text. Only same-scheme, same-host references and single-slash
/// absolute paths are admitted; everything else is out of scope.
pub open spec fn resolve_url(base: UrlView, r: Seq<char>) -> Result<UrlView, UrlError> {
    if starts_with(r, scheme_chars(UrlScheme::HTTP) + sep_chars()) || starts_with(
        r,
        scheme_chars(UrlScheme::HTTPS) + sep_chars(),
    ) {
        match parse_url(r) {
            Ok(u) => if u.scheme == base.scheme && u.host == base.host {
                Ok(u)
            } else {
                Err(UrlError::DifferentSchemeOrHost)
            },
            Err(e) => Err(e),
        }
    } else if r.len() > 0 && r[0] == '/' && !(r.len() > 1 && r[1] == '/') {
        Ok(
            UrlView {
                scheme: base.scheme,
                host: base.host,
                path: normalize_path(r.subrange(1, r.len() as int)),
            },
        )
    } else {
        Err(UrlError::UnexpectedFormat)
    }
}

impl UrlView {
    /// Canonical well-formedness: the host is non-empty and delimiter-free,
    /// and the path, when present, is non-empty, fragment-free and does not
    /// end in a slash. Parsing and resolving only ever produce such values,
    /// and rendering such a value parses back to it exactly.
    pub open spec fn wf(self) -> bool {
        &&& self.host.len() > 0
        &&& forall|j: int| 0 <= j < self.host.len() ==> self.host[j] != '/' && self.host[j] != '#'
        &&& match self.path {
            Some(p) => p.len() > 0 && p[p.len() - 1] != '/' && (forall|j: int|
                0 <= j < p.len() ==> p[j] != '#'),
            None => true,
        }
    }
}

/// View of a parse result, for stating contracts.
pub open spec fn url_result_view(r: Result<Url, UrlError>) -> Result<UrlView, UrlError> {
    match r {
        Ok(u) => Ok(u@),
        Err(e) => Err(e),
    }
}

proof fn lemma_find_sep_props(s: Seq<char>, i0: int)
    ensures
        match find_sep_from(s, i0) {
            Some(k) => i0 <= k && is_sep_at(s, k),
            None => true,
        },
    decreases s.len() - i0,
{
    if i0 < 0 || i0 + 3 > s.len() {
    } else if is_sep_at(s, i0) {
    } else {
        lemma_find_sep_props(s, i0 + 1);
    }
}

pub(crate) proof fn lemma_find_char_props(s: Seq<char>, c: char, i0: int)
    requires
        0 <= i0 <= s.len(),
    ensures
        match find_char_from(s, c, i0) {
            Some(k) => i0 <= k < s.len() && s[k] == c && (forall|j: int|
                i0 <= j < k ==> s[j] != c),
            None => forall|j: int| i0 <= j < s.len() ==> s[j] != c,
        },
    decreases s.len() - i0,
{
    if i0 >= s.len() {
    } else if s[i0] == c {
    } else {
        lemma_find_char_props(s, c, i0 + 1);
    }
}

proof fn lemma_find_char_none(s: Seq<char>, c: char, i0: int)
    requires
        0 <= i0 <= s.len(),
        forall|j: int| i0 <= j < s.len() ==> s[j] != c,
    ensures
        find_char_from(s, c, i0) is None,
    decreases s.len() - i0,
{
    if i0 < s.len() {
        lemma_find_char_none(s, c, i0 + 1);
    }
}

/// The inputs on which parsing and rendering invert each other exactly: text
/// that parses, carries no fragment, and does not end in a slash. For every
/// such text, rendering the parsed URL gives the text back.
pub proof fn lemma_parse_render_round_trip(s: Seq<char>, u: UrlView)
    requires
        parse_url(s) == Ok::<UrlView, UrlError>(u),
        find_char_from(s, '#', 0) is None,
        s.len() > 0 ==> s[s.len() - 1] != '/',
    ensures
        render_url(u) == s,
{
    let sep = find_sep_from(s, 0);
    lemma_find_sep_props(s, 0);
    let i = sep.unwrap();
    let scheme_part = s.subrange(0, i);
    let rest = s.subrange(i + 3, s.len() as int);
    assert(s.subrange(i, i + 3) =~= sep_chars());
    lemma_find_char_props(s, '#', 0);
    lemma_find_char_none(rest, '#', 0);
    assert(strip_fragment(rest) == rest);
    let host_end = find_char_from(rest, '/', 0);
    lemma_find_char_props(rest, '/', 0);
    match host_end {
        None => {
            assert(rest.subrange(0, rest.len() as int) =~= rest);
            assert(u.host == rest && u.path is None);
            assert(render_url(u) =~= scheme_part + sep_chars() + rest);
            assert(scheme_part + sep_chars() + rest =~= s);
        },
        Some(k) => {
            let host = rest.subrange(0, k);
            assert(host.len() > 0);
            let raw = rest.subrange(k + 1, rest.len() as int);
            assert(rest.len() > 0 && rest[rest.len() - 1] == s[s.len() - 1]);
            if raw.len() == 0 {
                assert(rest[rest.len() - 1] == '/');
                assert(false);
            }
            assert(raw[raw.len() - 1] == s[s.len() - 1]);
            assert(trim_trailing_slashes(raw) == raw);
            assert(u.host == host && u.path == Some(raw));
            assert(render_url(u) =~= scheme_part + sep_chars() + host + seq!['/'] + raw);
            assert(scheme_part + sep_chars() + host + seq!['/'] + raw =~= s);
        },
    }
}

proof fn lemma_trim_props(s: Seq<char>)
    ensures
        trim_trailing_slashes(s).len() <= s.len(),
        trim_trailing_slashes(s) == s.subrange(0, trim_trailing_slashes(s).len() as int),
        trim_trailing_slashes(s).len() > 0 ==> trim_trailing_slashes(s)[trim_trailing_slashes(
            s,
        ).len() - 1] != '/',
    decreases s.len(),
{
    if s.len() > 0 && s[s.len() - 1] == '/' {
        lemma_trim_props(s.drop_last());
        assert(s.drop_last() =~= s.subrange(0, s.len() - 1));
        assert(trim_trailing_slashes(s.drop_last()).len() <= s.len() - 1);
        assert(s.drop_last().subrange(0, trim_trailing_slashes(s.drop_last()).len() as int)
            =~= s.subrange(0, trim_trailing_slashes(s.drop_last()).len() as int));
    } else {
        assert(trim_trailing_slashes(s) == s);
        assert(s.subrange(0, s.len() as int) =~= s);
    }
}

/// Everything `parse` accepts is canonical: a `Url` built by `Url::parse`
/// always satisfies [`UrlView::wf`].
pub proof fn lemma_parse_wf(s: Seq<char>, u: UrlView)
    requires
        parse_url(s) == Ok::<UrlView, UrlError>(u),
    ensures
        u.wf(),
{
    lemma_find_sep_props(s, 0);
    let i = find_sep_from(s, 0).unwrap();
    let rest = s.subrange(i + 3, s.len() as int);
    lemma_find_char_props(rest, '#', 0);
    let trimmed = strip_fragment(rest);
    assert(forall|j: int| 0 <= j < trimmed.len() ==> trimmed[j] != '#') by {
        match find_char_from(rest, '#', 0) {
            Some(h) => {
                assert(forall|j: int| 0 <= j < h ==> rest[j] != '#');
                assert(forall|j: int| 0 <= j < h ==> trimmed[j] == rest[j]);
            },
            None => {},
        }
    }
    lemma_find_char_props(trimmed, '/', 0);
    let host_end = match find_char_from(trimmed, '/', 0) {
        Some(k) => k,
        None => trimmed.len() as int,
    };
    assert(forall|j: int| 0 <= j < host_end ==> trimmed[j] != '/');
    if host_end < trimmed.len() {
        let raw = trimmed.subrange(host_end + 1, trimmed.len() as int);
        lemma_trim_props(raw);
        let p = trim_trailing_slashes(raw);
        assert(forall|j: int| 0 <= j < p.len() ==> p[j] == raw[j]);
    }
}

/// A successful resolution against a canonical base is canonical too.
pub proof fn lemma_resolve_wf(base: UrlView, r: Seq<char>, u: UrlView)
    requires
        base.wf(),
        resolve_url(base, r) == Ok::<UrlView, UrlError>(u),
    ensures
        u.wf(),
{
    if starts_with(r, scheme_chars(UrlScheme::HTTP) + sep_chars()) || starts_with(
        r,
        scheme_chars(UrlScheme::HTTPS) + sep_chars(),
    ) {
        lemma_parse_wf(r, u);
    } else {
        let tail = r.subrange(1, r.len() as int);
        lemma_find_char_props(tail, '#', 0);
        let trimmed = strip_fragment(tail);
        assert(forall|j: int| 0 <= j < trimmed.len() ==> trimmed[j] != '#') by {
            match find_char_from(tail, '#', 0) {
                Some(h) => {
                    assert(forall|j: int| 0 <= j < h ==> tail[j] != '#');
                    assert(forall|j: int| 0 <= j < h ==> trimmed[j] == tail[j]);
                },
                None => {},
            }
        }
        lemma_trim_props(trimmed);
        let p = trim_trailing_slashes(trimmed);
        assert(forall|j: int| 0 <= j < p.len() ==> p[j] == trimmed[j]);
    }
}

/// The converse round trip: rendering a canonical URL parses back to it
/// exactly. With [`lemma_parse_render_round_trip`], the canonical textual
/// form and the canonical triple determine one another.
pub proof fn lemma_render_parse_round_trip(u: UrlView)
    requires
        u.wf(),
    ensures
        parse_url(render_url(u)) == Ok::<UrlView, UrlError>(u),
{
    let s = render_url(u);
    let sc = scheme_chars(u.scheme);
    let k = sc.len() as int;
    let tail = match u.path {
        Some(p) => seq!['/'] + p,
        None => Seq::<char>::empty(),
    };
    assert(s =~= sc + sep_chars() + u.host + tail);
    assert(is_sep_at(s, k));
    match u.scheme {
        UrlScheme::HTTP => {
            assert(s[0] == 'h' && s[1] == 't' && s[2] == 't' && s[3] == 'p');
            assert(find_sep_from(s, 0) == find_sep_from(s, 1));
            assert(find_sep_from(s, 1) == find_sep_from(s, 2));
            assert(find_sep_from(s, 2) == find_sep_from(s, 3));
            assert(find_sep_from(s, 3) == find_sep_from(s, 4));
            assert(find_sep_from(s, 4) == Some(4int));
        },
        UrlScheme::HTTPS => {
            assert(s[0] == 'h' && s[1] == 't' && s[2] == 't' && s[3] == 'p' && s[4] == 's');
            assert(find_sep_from(s, 0) == find_sep_from(s, 1));
            assert(find_sep_from(s, 1) == find_sep_from(s, 2));
            assert(find_sep_from(s, 2) == find_sep_from(s, 3));
            assert(find_sep_from(s, 3) == find_sep_from(s, 4));
            assert(find_sep_from(s, 4) == find_sep_from(s, 5));
            assert(find_sep_from(s, 5) == Some(5int));
        },
    }
    assert(s.subrange(0, k) =~= sc);
    let rest = s.subrange(k + 3, s.len() as int);
    assert(rest =~= u.host + tail);
    assert(forall|j: int| 0 <= j < rest.len() ==> rest[j] != '#') by {
        assert(forall|j: int| 0 <= j < u.host.len() ==> rest[j] == u.host[j]);
        match u.path {
            Some(p) => {
                assert(rest[u.host.len() as int] == '/');
                assert(forall|j: int|
                    0 <= j < p.len() ==> rest[u.host.len() + 1 + j] == p[j]);
            },
            None => {},
        }
    }
    lemma_find_char_none(rest, '#', 0);
    assert(strip_fragment(rest) == rest);
    let hl = u.host.len() as int;
    assert(forall|j: int| 0 <= j < hl ==> rest[j] == u.host[j] && rest[j] != '/');
    match u.path {
        None => {
            lemma_find_char_none(rest, '/', 0);
            assert(rest.subrange(0, rest.len() as int) =~= rest);
            assert(parse_authority(u.scheme, rest) == Ok::<UrlView, UrlError>(u)) by {
                assert(rest =~= u.host);
                assert((UrlView { scheme: u.scheme, host: rest, path: None }) =~= u);
            }
        },
        Some(p) => {
            assert(rest[hl] == '/');
            lemma_find_char_props(rest, '/', 0);
            let kk = find_char_from(rest, '/', 0).unwrap();
            assert(kk == hl) by {
                if kk < hl {
                    assert(rest[kk] != '/');
                }
                if kk > hl {
                    assert(rest[hl] != '/');
                }
            }
            let raw = rest.subrange(hl + 1, rest.len() as int);
            assert(raw =~= p) by {
                assert(forall|j: int|
                    0 <= j < p.len() ==> rest[u.host.len() + 1 + j] == p[j]);
            }
            assert(trim_trailing_slashes(p) == p);
            assert(rest.subrange(0, hl) =~= u.host);
            assert(parse_authority(u.scheme, rest) == Ok::<UrlView, UrlError>(u)) by {
                assert((UrlView { scheme: u.scheme, host: rest.subrange(0, hl), path: Some(p) })
                    =~= u);
            }
        },
    }
}

/// Scope confinement: whatever reference text resolves successfully against
/// a base, the resulting URL carries exactly the base's scheme and host.
pub proof fn lemma_resolve_confined(base: UrlView, r: Seq<char>, u: UrlView)
    requires
        resolve_url(base, r) == Ok::<UrlView, UrlError>(u),
    ensures
        u.scheme == base.scheme,
        u.host == base.host,
{
}

/// Find the first `://` in `s`.
fn find_sep(s: &str) -> (r: Option<usize>)
    ensures
        match r {
            Some(k) => find_sep_from(s@, 0) == Some(k as int) && is_sep_at(s@, k as int),
            None => find_sep_from(s@, 0) is None,
        },
{
    let n = s.unicode_len();
    let mut i: usize = 0;
    while n >= 3 && i <= n - 3
        invariant
            n == s@.len(),
            i <= n,
            find_sep_from(s@, 0) == find_sep_from(s@, i as int),
        decreases n - i,
    {
        if s.get_char(i) == ':' && s.get_char(i + 1) == '/' && s.get_char(i + 2) == '/' {
            assert(is_sep_at(s@, i as int));
            return Some(i);
        }
        assert(!is_sep_at(s@, i as int));
        assert(find_sep_from(s@, i as int) == find_sep_from(s@, i + 1 as int));
        i = i + 1;
    }
    None
}

/// Find the first occurrence of `c` in `s`.
pub(crate) fn find_char(s: &str, c: char) -> (r: Option<usize>)
    ensures
        match r {
            Some(k) => find_char_from(s@, c, 0) == Some(k as int) && k < s@.len() && s@[k as int]
                == c,
            None => find_char_from(s@, c, 0) is None,
        },
{
    let n = s.unicode_len();
    let mut i: usize = 0;
    while i < n
        invariant
            n == s@.len(),
            0 <= i,
            find_char_from(s@, c, 0) == find_char_from(s@, c, i as int),
        decreases n - i,
    {
        if s.get_char(i) == c {
            return Some(i);
        }
        assert(find_char_from(s@, c, i as int) == find_char_from(s@, c, i + 1 as int));
        i = i + 1;
    }
    None
}

/// Length of `s` once every trailing `/` is removed.
fn len_without_trailing_slashes(s: &str) -> (end: usize)
    ensures
        end <= s@.len(),
        trim_trailing_slashes(s@) == s@.subrange(0, end as int),
{
    let n = s.unicode_len();
    let mut end: usize = n;
    proof {
        assert(s@.subrange(0, n as int) =~= s@);
    }
    while end > 0 && s.get_char(end - 1) == '/'
        invariant
            n == s@.len(),
            end <= n,
            trim_trailing_slashes(s@) == trim_trailing_slashes(s@.subrange(0, end as int)),
        decreases end,
    {
        proof {
            let cur = s@.subrange(0, end as int);
            assert(cur[end - 1] == '/');
            assert(cur.drop_last() =~= s@.subrange(0, end - 1));
        }
        end = end - 1;
    }
    proof {
        let cur = s@.subrange(0, end as int);
        if end > 0 {
            assert(cur[end - 1] != '/');
        }
        assert(trim_trailing_slashes(cur) == cur);
    }
    end
}

impl Url {
    pub fn new(scheme: &UrlScheme, host: &str, path: Option<&str>) -> (u: Self)
        ensures
            u@ == (UrlView {
                scheme: *scheme,
                host: host@,
                path: match path {
                    Some(p) => Some(p@),
                    None => None,
                },
            }),
    {
        Url {
            scheme: *scheme,
            host: host.to_owned(),
            path: match path {
                Some(p) => Some(p.to_owned()),
                None => None,
            },
        }
    }

    /// Parse canonical-or-near-canonical text into a `Url`, normalizing as it
    /// goes: the fragment is dropped, trailing slashes are dropped, and an
    /// empty path becomes absent.
    pub fn parse(text: &str) -> (r: Result<Url, UrlError>)
        ensures
            url_result_view(r) == parse_url(text@),
    {
        let n = text.unicode_len();
        let sep = match find_sep(text) {
            Some(k) => k,
            None => {
                return Err(UrlError::MissingScheme);
            },
        };
        let scheme: UrlScheme = if sep == 4 && text.get_char(0) == 'h' && text.get_char(1) == 't'
            && text.get_char(2) == 't' && text.get_char(3) == 'p' {
            proof {
                assert(text@.subrange(0, 4) =~= scheme_chars(UrlScheme::HTTP));
            }
            UrlScheme::HTTP
        } else if sep == 5 && text.get_char(0) == 'h' && text.get_char(1) == 't' && text.get_char(
            2,
        ) == 't' && text.get_char(3) == 'p' && text.get_char(4) == 's' {
            proof {
                assert(text@.subrange(0, 5) =~= scheme_chars(UrlScheme::HTTPS));
            }
            UrlScheme::HTTPS
        } else {
            proof {
                let part = text@.subrange(0, sep as int);
                if part == scheme_chars(UrlScheme::HTTP) {
                    assert(part.len() == 4);
                    assert(text@[0] == part[0] && text@[1] == part[1] && text@[2] == part[2]
                        && text@[3] == part[3]);
                }
                if part == scheme_chars(UrlScheme::HTTPS) {
                    assert(part.len() == 5);
                    assert(text@[0] == part[0] && text@[1] == part[1] && text@[2] == part[2]
                        && text@[3] == part[3] && text@[4] == part[4]);
                }
            }
            return Err(UrlError::InvalidScheme);
        };
        let rest = text.substring_char(sep + 3, n);
        Self::parse_after_scheme(scheme, rest)
    }

    /// Split the authority text (everything after `scheme://`) into host and
    /// normalized path.
    fn parse_after_scheme(scheme: UrlScheme, rest: &str) -> (r: Result<Url, UrlError>)
        ensures
            url_result_view(r) == parse_authority(scheme, rest@),
    {
        let rest_len = rest.unicode_len();
        let trimmed = match find_char(rest, '#') {
            Some(h) => rest.substring_char(0, h),
            None => {
                proof {
                    assert(strip_fragment(rest@) =~= rest@);
                }
                rest
            },
        };
        let trimmed_len = trimmed.unicode_len();
        let host_end = match find_char(trimmed, '/') {
            Some(k) => k,
            None => trimmed_len,
        };
        if host_end == 0 {
            proof {
                assert(strip_fragment(rest@).subrange(0, 0).len() == 0);
            }
            return Err(UrlError::MissingHost);
        }
        let host = trimmed.substring_char(0, host_end);
        if host_end < trimmed_len {
            let raw = trimmed.substring_char(host_end + 1, trimmed_len);
            let end = len_without_trailing_slashes(raw);
            if end == 0 {
                Ok(Url::new(&scheme, host, None))
            } else {
                let path = raw.substring_char(0, end);
                Ok(Url::new(&scheme, host, Some(path)))
            }
        } else {
            proof {
                let t = strip_fragment(rest@);
                assert(t.subrange(0, t.len() as int) =~= t);
            }
            Ok(Url::new(&scheme, host, None))
        }
    }

    /// The canonical textual form, used as the journal wire format and as the
    /// identity key.
    pub fn render(&self) -> (r: String)
        ensures
            r@ == render_url(self@),
    {
        proof {
            reveal_strlit("http");
            reveal_strlit("https");
            reveal_strlit("://");
            reveal_strlit("/");
        }
        let mut out = String::new();
        match self.scheme {
            UrlScheme::HTTP => {
                out.append("http");
                proof {
                    assert(out@ =~= scheme_chars(UrlScheme::HTTP));
                }
            },
            UrlScheme::HTTPS => {
                out.append("https");
                proof {
                    assert(out@ =~= scheme_chars(UrlScheme::HTTPS));
                }
            },
        }
        out.append("://");
        proof {
            assert(out@ =~= scheme_chars(self@.scheme) + sep_chars());
        }
        out.append(self.host.as_str());
        match &self.path {
            Some(p) => {
                out.append("/");
                out.append(p.as_str());
                proof {
                    assert(out@ =~= render_url(self@));
                }
            },
            None => {
                proof {
                    assert(out@ =~= render_url(self@));
                }
            },
        }
        out
    }

    /// Resolve a reference against a base URL, confining the crawl to the
    /// base's scheme and host: a full `http(s)://` reference must match both,
    /// a single-slash reference is an absolute path on the base, and any
    /// other shape is rejected.
    pub fn new_with_base(base_url: &Url, url_or_path: &str) -> (r: Result<Url, UrlError>)
        ensures
            url_result_view(r) == resolve_url(base_url@, url_or_path@),
    {
        let n = url_or_path.unicode_len();
        let http_pref = n >= 7 && url_or_path.get_char(0) == 'h' && url_or_path.get_char(1) == 't'
            && url_or_path.get_char(2) == 't' && url_or_path.get_char(3) == 'p'
            && url_or_path.get_char(4) == ':' && url_or_path.get_char(5) == '/'
            && url_or_path.get_char(6) == '/';
        let https_pref = n >= 8 && url_or_path.get_char(0) == 'h' && url_or_path.get_char(1) == 't'
            && url_or_path.get_char(2) == 't' && url_or_path.get_char(3) == 'p'
            && url_or_path.get_char(4) == 's' && url_or_path.get_char(5) == ':'
            && url_or_path.get_char(6) == '/' && url_or_path.get_char(7) == '/';
        proof {
            let s = url_or_path@;
            let hp = scheme_chars(UrlScheme::HTTP) + sep_chars();
            let hsp = scheme_chars(UrlScheme::HTTPS) + sep_chars();
            assert(hp.len() == 7 && hsp.len() == 8);
            if n >= 7 {
                if http_pref {
                    assert(s.subrange(0, 7) =~= hp);
                } else {
                    assert(s.subrange(0, 7) != hp) by {
                        if s.subrange(0, 7) == hp {
                            assert(forall|j: int| 0 <= j < 7 ==> s[j] == hp[j]);
                        }
                    }
                }
            }
            if n >= 8 {
                if https_pref {
                    assert(s.subrange(0, 8) =~= hsp);
                } else {
                    assert(s.subrange(0, 8) != hsp) by {
                        if s.subrange(0, 8) == hsp {
                            assert(forall|j: int| 0 <= j < 8 ==> s[j] == hsp[j]);
                        }
                    }
                }
            }
            assert(http_pref == starts_with(s, hp));
            assert(https_pref == starts_with(s, hsp));
        }
        if http_pref || https_pref {
            match Url::parse(url_or_path) {
                Ok(u) => {
                    if u.scheme == base_url.scheme && u.host.eq(&base_url.host) {
                        Ok(u)
                    } else {
                        Err(UrlError::DifferentSchemeOrHost)
                    }
                },
                Err(e) => Err(e),
            }
        } else if n >= 1 && url_or_path.get_char(0) == '/' && !(n >= 2 && url_or_path.get_char(1)
            == '/') {
            let tail = url_or_path.substring_char(1, n);
            let trimmed = match find_char(tail, '#') {
                Some(h) => tail.substring_char(0, h),
                None => {
                    proof {
                        assert(strip_fragment(tail@) =~= tail@);
                    }
                    tail
                },
            };
            let end = len_without_trailing_slashes(trimmed);
            if end == 0 {
                Ok(Url::new(&base_url.scheme, base_url.host.as_str(), None))
            } else {
                let path = trimmed.substring_char(0, end);
                Ok(Url::new(&base_url.scheme, base_url.host.as_str(), Some(path)))
            }
        } else {
            Err(UrlError::UnexpectedFormat)
        }
    }
}

} // verus!
