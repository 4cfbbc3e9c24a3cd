//! Browsing data kept in memory: cookies, history, bookmarks and per-origin
//! local storage, with selective export and import.

use vstd::prelude::*;
use vstd::string::StrSliceExecFns;
use vstd::string::StringExecFns;

use crate::generator::str_eq;

verus! {

/// One stored cookie, identified by (domain, name, path).
pub struct Cookie {
    pub domain: String,
    pub name: String,
    pub value: String,
    pub path: String,
    pub expires: Option<i64>,
    pub http_only: bool,
    pub secure: bool,
    pub same_site: String,
}

impl Cookie {
    /// Storage identity of a cookie.
    pub open spec fn same_cookie_key(self, other: Cookie) -> bool {
        self.domain@ == other.domain@ && self.name@ == other.name@ && self.path@ == other.path@
    }

    /// A field-for-field copy.
    pub fn duplicate(&self) -> (r: Cookie)
        ensures
            r == *self,
    {
        Cookie {
            domain: self.domain.clone(),
            name: self.name.clone(),
            value: self.value.clone(),
            path: self.path.clone(),
            expires: self.expires,
            http_only: self.http_only,
            secure: self.secure,
            same_site: self.same_site.clone(),
        }
    }
}

/// One visited page, keyed by its URL.
pub struct HistoryEntry {
    pub id: i64,
    pub url: String,
    pub title: Option<String>,
    pub visit_count: i32,
    pub last_visit: i64,
}

impl HistoryEntry {
    /// A field-for-field copy.
    pub fn duplicate(&self) -> (r: HistoryEntry)
        ensures
            r == *self,
    {
        HistoryEntry {
            id: self.id,
            url: self.url.clone(),
            title: match &self.title {
                Some(t) => Some(t.clone()),
                None => None,
            },
            visit_count: self.visit_count,
            last_visit: self.last_visit,
        }
    }
}

/// One saved bookmark.
pub struct Bookmark {
    pub id: i64,
    pub url: String,
    pub title: String,
    pub folder: Option<String>,
    pub created_at: i64,
}

impl Bookmark {
    /// A field-for-field copy.
    pub fn duplicate(&self) -> (r: Bookmark)
        ensures
            r == *self,
    {
        Bookmark {
            id: self.id,
            url: self.url.clone(),
            title: self.title.clone(),
            folder: match &self.folder {
                Some(f) => Some(f.clone()),
                None => None,
            },
            created_at: self.created_at,
        }
    }
}

/// A full snapshot of the stored browsing data. Local storage is a list of
/// (origin, items) pairs, each item a (key, value) pair.
pub struct StorageExport {
    pub version: String,
    pub exported_at: i64,
    pub cookies: Vec<Cookie>,
    pub history: Vec<HistoryEntry>,
    pub bookmarks: Vec<Bookmark>,
    pub local_storage: Vec<(String, Vec<(String, String)>)>,
}

/// What an import takes over, and whether it merges or replaces.
pub struct ImportOptions {
    pub merge: bool,
    pub import_cookies: bool,
    pub import_history: bool,
    pub import_bookmarks: bool,
    pub import_local_storage: bool,
}

impl ImportOptions {
    /// Merge every data type into what is already stored.
    pub fn all() -> (r: ImportOptions)
        ensures
            r.merge,
            r.import_cookies,
            r.import_history,
            r.import_bookmarks,
            r.import_local_storage,
    {
        ImportOptions {
            merge: true,
            import_cookies: true,
            import_history: true,
            import_bookmarks: true,
            import_local_storage: true,
        }
    }

    /// Replace every data type with the imported data.
    pub fn replace_all() -> (r: ImportOptions)
        ensures
            !r.merge,
            r.import_cookies,
            r.import_history,
            r.import_bookmarks,
            r.import_local_storage,
    {
        ImportOptions {
            merge: false,
            import_cookies: true,
            import_history: true,
            import_bookmarks: true,
            import_local_storage: true,
        }
    }
}

/// What an export includes.
pub struct ExportOptions {
    pub export_cookies: bool,
    pub export_history: bool,
    pub export_bookmarks: bool,
    pub export_local_storage: bool,
}

impl ExportOptions {
    /// Export every data type.
    pub fn all() -> (r: ExportOptions)
        ensures
            r.export_cookies,
            r.export_history,
            r.export_bookmarks,
            r.export_local_storage,
    {
        ExportOptions {
            export_cookies: true,
            export_history: true,
            export_bookmarks: true,
            export_local_storage: true,
        }
    }
}

/// Counts of what an import or export touched.
pub struct ImportExportStats {
    pub cookies_count: usize,
    pub history_count: usize,
    pub bookmarks_count: usize,
    pub local_storage_origins: usize,
    pub local_storage_items: usize,
}

/// How many items the origins hold together.
pub open spec fn items_total(s: Seq<(String, Vec<(String, String)>)>) -> int
    decreases s.len(),
{
    if s.len() == 0 {
        0
    } else {
        items_total(s.drop_last()) + s.last().1@.len()
    }
}

/// The character's code point, lowered to ASCII lower case.
pub open spec fn lower_code(c: char) -> int {
    if 65 <= c as u32 <= 90 {
        c as u32 + 32
    } else {
        c as int
    }
}

/// Whether `needle` occurs contiguously inside `hay`.
pub open spec fn contains_chars(hay: Seq<char>, needle: Seq<char>) -> bool {
    exists|i: int|
        0 <= i && i + needle.len() <= hay.len() && #[trigger] hay.subrange(i, i + needle.len())
            == needle
}

/// Whether `needle` matches `hay` at position `i` with ASCII case folded
/// away.
pub open spec fn ci_match_at(hay: Seq<char>, needle: Seq<char>, i: int) -> bool {
    0 <= i && i + needle.len() <= hay.len() && (forall|k: int|
        0 <= k < needle.len() ==> lower_code(hay[i + k]) == lower_code(#[trigger] needle[k]))
}

/// Whether `needle` occurs inside `hay` when both are compared with ASCII
/// case folded away.
pub open spec fn ci_substring(hay: Seq<char>, needle: Seq<char>) -> bool {
    exists|i: int| #[trigger] ci_match_at(hay, needle, i)
}

fn chars_vec(s: &str) -> (r: Vec<char>)
    ensures
        r@ == s@,
{
    let n = s.unicode_len();
    let mut out: Vec<char> = Vec::new();
    let mut i: usize = 0;
    while i < n
        invariant
            n == s@.len(),
            i <= n,
            out@ == s@.subrange(0, i as int),
        decreases n - i,
    {
        out.push(s.get_char(i));
        proof {
            assert(out@ =~= s@.subrange(0, i as int + 1));
        }
        i = i + 1;
    }
    proof {
        assert(out@ =~= s@);
    }
    out
}

fn lower_codes_vec(s: &str) -> (r: Vec<u32>)
    ensures
        r@.len() == s@.len(),
        forall|k: int| 0 <= k < s@.len() ==> r@[k] == lower_code(#[trigger] s@[k]),
{
    let n = s.unicode_len();
    let mut out: Vec<u32> = Vec::new();
    let mut i: usize = 0;
    while i < n
        invariant
            n == s@.len(),
            i <= n,
            out@.len() == i,
            forall|k: int| 0 <= k < i ==> out@[k] == lower_code(#[trigger] s@[k]),
        decreases n - i,
    {
        let c = s.get_char(i);
        let code = c as u32;
        if 65 <= code && code <= 90 {
            out.push(code + 32);
        } else {
            out.push(code);
        }
        i = i + 1;
    }
    out
}

fn chars_contain(hay: &Vec<char>, needle: &Vec<char>) -> (r: bool)
    ensures
        r == contains_chars(hay@, needle@),
{
    let hn = hay.len();
    let nn = needle.len();
    if nn > hn {
        return false;
    }
    if nn == 0 {
        proof {
            assert(hay@.subrange(0, 0 + needle@.len() as int) =~= needle@);
            assert(contains_chars(hay@, needle@));
        }
        return true;
    }
    let mut i: usize = 0;
    while i <= hn - nn
        invariant
            hn == hay@.len(),
            nn == needle@.len(),
            1 <= nn <= hn,
            i <= hn - nn + 1,
            forall|i0: int|
                0 <= i0 < i ==> #[trigger] hay@.subrange(i0, i0 + nn) != needle@,
        decreases hn - nn - i + 1,
    {
        let mut j: usize = 0;
        let mut matched = true;
        while j < nn
            invariant
                hn == hay@.len(),
                nn == needle@.len(),
                i + nn <= hn,
                j <= nn,
                matched ==> forall|k: int| 0 <= k < j ==> hay@[i + k] == #[trigger] needle@[k],
                !matched ==> #[trigger] hay@.subrange(i as int, i + nn) != needle@,
            decreases nn - j,
        {
            if hay[i + j] != needle[j] {
                proof {
                    assert(hay@.subrange(i as int, i + nn)[j as int] == hay@[i + j]);
                }
                matched = false;
                j = nn;
            } else {
                j = j + 1;
            }
        }
        if matched {
            proof {
                assert(hay@.subrange(i as int, i + nn) =~= needle@);
            }
            return true;
        }
        i = i + 1;
    }
    proof {
        assert forall|i0: int|
            0 <= i0 && i0 + needle@.len() <= hay@.len() implies #[trigger] hay@.subrange(
            i0,
            i0 + needle@.len(),
        ) != needle@ by {
            assert(i0 < i);
        }
    }
    false
}

/// Whether `needle` matches `hay` starting at position `i`.
pub open spec fn codes_match_at(hay: Seq<u32>, needle: Seq<u32>, i: int) -> bool {
    0 <= i && i + needle.len() <= hay.len() && (forall|k: int|
        0 <= k < needle.len() ==> hay[i + k] == #[trigger] needle[k])
}

fn codes_contain(hay: &Vec<u32>, needle: &Vec<u32>) -> (r: bool)
    ensures
        r == exists|i: int| #[trigger] codes_match_at(hay@, needle@, i),
{
    let hn = hay.len();
    let nn = needle.len();
    if nn > hn {
        return false;
    }
    if nn == 0 {
        proof {
            assert(codes_match_at(hay@, needle@, 0));
        }
        return true;
    }
    let mut i: usize = 0;
    while i <= hn - nn
        invariant
            hn == hay@.len(),
            nn == needle@.len(),
            1 <= nn <= hn,
            i <= hn - nn + 1,
            forall|i0: int| 0 <= i0 < i ==> !(#[trigger] codes_match_at(hay@, needle@, i0)),
        decreases hn - nn - i + 1,
    {
        let mut j: usize = 0;
        let mut matched = true;
        while j < nn
            invariant
                hn == hay@.len(),
                nn == needle@.len(),
                i + nn <= hn,
                j <= nn,
                matched ==> forall|k: int| 0 <= k < j ==> hay@[i + k] == #[trigger] needle@[k],
                !matched ==> !codes_match_at(hay@, needle@, i as int),
            decreases nn - j,
        {
            if hay[i + j] != needle[j] {
                matched = false;
                j = nn;
            } else {
                j = j + 1;
            }
        }
        if matched {
            proof {
                assert(codes_match_at(hay@, needle@, i as int));
            }
            return true;
        }
        i = i + 1;
    }
    proof {
        assert forall|i0: int| !(#[trigger] codes_match_at(hay@, needle@, i0)) by {
            if codes_match_at(hay@, needle@, i0) {
                assert(0 <= i0 < i);
            }
        }
    }
    false
}

/// Whether a history entry matches an ASCII-lowered query: its URL or its
/// title contains the query, compared case-insensitively.
pub open spec fn entry_matches(e: HistoryEntry, q: Seq<char>) -> bool {
    ||| ci_substring(e.url@, q)
    ||| match e.title {
        Some(t) => ci_substring(t@, q),
        None => false,
    }
}

/// How many of the first `n` entries match the query.
pub open spec fn match_count(s: Seq<HistoryEntry>, q: Seq<char>, n: int) -> int
    decreases n,
{
    if n <= 0 {
        0
    } else {
        match_count(s, q, n - 1) + if entry_matches(s[n - 1], q) {
            1int
        } else {
            0int
        }
    }
}

/// The history entries matching a query, in store order.
pub open spec fn match_filter(s: Seq<HistoryEntry>, q: Seq<char>) -> Seq<HistoryEntry>
    decreases s.len(),
{
    if s.len() == 0 {
        s
    } else {
        let prefix = match_filter(s.drop_last(), q);
        if entry_matches(s.last(), q) {
            prefix.push(s.last())
        } else {
            prefix
        }
    }
}

/// Whether `c` is one of the stored cookies.
pub open spec fn cookie_from(c: Cookie, s: Seq<Cookie>) -> bool {
    exists|j: int| 0 <= j < s.len() && #[trigger] s[j] == c
}

/// First-match lookup among one origin's items.
pub open spec fn items_lookup(items: Seq<(String, String)>, k: Seq<char>) -> Option<Seq<char>>
    decreases items.len(),
{
    if items.len() == 0 {
        None
    } else if items[0].0@ == k {
        Some(items[0].1@)
    } else {
        items_lookup(items.drop_first(), k)
    }
}

/// The value stored for `k` under `origin`, if any.
pub open spec fn ls_lookup(
    s: Seq<(String, Vec<(String, String)>)>,
    origin: Seq<char>,
    k: Seq<char>,
) -> Option<Seq<char>>
    decreases s.len(),
{
    if s.len() == 0 {
        None
    } else if s[0].0@ == origin {
        items_lookup(s[0].1@, k)
    } else {
        ls_lookup(s.drop_first(), origin, k)
    }
}

/// Item lookup skips a prefix with no matching key.
proof fn lemma_items_skip(items: Seq<(String, String)>, k: Seq<char>, j: int)
    requires
        0 <= j <= items.len(),
        forall|m: int| 0 <= m < j ==> (#[trigger] items[m]).0@ != k,
    ensures
        items_lookup(items, k) == items_lookup(items.skip(j), k),
    decreases j,
{
    if j > 0 {
        assert(items[0].0@ != k);
        lemma_items_skip(items.drop_first(), k, j - 1);
        assert(items.skip(j) =~= items.drop_first().skip(j - 1));
    } else {
        assert(items.skip(0) =~= items);
    }
}

/// Origin lookup skips a prefix with no matching origin.
proof fn lemma_ls_skip(
    s: Seq<(String, Vec<(String, String)>)>,
    origin: Seq<char>,
    k: Seq<char>,
    j: int,
)
    requires
        0 <= j <= s.len(),
        forall|m: int| 0 <= m < j ==> (#[trigger] s[m]).0@ != origin,
    ensures
        ls_lookup(s, origin, k) == ls_lookup(s.skip(j), origin, k),
    decreases j,
{
    if j > 0 {
        assert(s[0].0@ != origin);
        lemma_ls_skip(s.drop_first(), origin, k, j - 1);
        assert(s.skip(j) =~= s.drop_first().skip(j - 1));
    } else {
        assert(s.skip(0) =~= s);
    }
}

/// The in-memory store of browsing data.
pub struct StorageEngine {
    pub cookies: Vec<Cookie>,
    pub history: Vec<HistoryEntry>,
    pub bookmarks: Vec<Bookmark>,
    pub local_storage: Vec<(String, Vec<(String, String)>)>,
    pub next_history_id: i64,
    pub next_bookmark_id: i64,
}

impl StorageEngine {
    /// Cookie keys, history URLs, bookmark ids and origins are all unique;
    /// id counters stay ahead of every issued id.
    pub open spec fn wf(self) -> bool {
        &&& forall|i: int, j: int|
            0 <= i < j < self.cookies@.len() ==> !(#[trigger] self.cookies@[i]).same_cookie_key(
                (#[trigger] self.cookies@[j]),
            )
        &&& forall|i: int, j: int|
            0 <= i < j < self.history@.len() ==> (#[trigger] self.history@[i]).url@ != (
            #[trigger] self.history@[j]).url@
        &&& forall|i: int, j: int|
            0 <= i < j < self.bookmarks@.len() ==> (#[trigger] self.bookmarks@[i]).id != (
            #[trigger] self.bookmarks@[j]).id
        &&& forall|i: int|
            0 <= i < self.bookmarks@.len() ==> (#[trigger] self.bookmarks@[i]).id
                < self.next_bookmark_id
        &&& forall|i: int, j: int|
            0 <= i < j < self.local_storage@.len() ==> (#[trigger] self.local_storage@[i]).0@
                != (#[trigger] self.local_storage@[j]).0@
        &&& self.next_history_id < 0x7FFFFFFFFFFFFFFFi64
        &&& self.next_bookmark_id < 0x7FFFFFFFFFFFFFFFi64
    }

    /// An empty store.
    pub fn new() -> (r: StorageEngine)
        ensures
            r.wf(),
            r.cookies@.len() == 0,
            r.history@.len() == 0,
            r.bookmarks@.len() == 0,
            r.local_storage@.len() == 0,
    {
        StorageEngine {
            cookies: Vec::new(),
            history: Vec::new(),
            bookmarks: Vec::new(),
            local_storage: Vec::new(),
            next_history_id: 1,
            next_bookmark_id: 1,
        }
    }

    fn find_cookie(&self, domain: &str, name: &str, path: &str) -> (r: Option<usize>)
        ensures
            match r {
                Some(i) => i < self.cookies@.len() && self.cookies@[i as int].domain@ == domain@
                    && self.cookies@[i as int].name@ == name@ && self.cookies@[i as int].path@
                    == path@,
                None => forall|i: int|
                    0 <= i < self.cookies@.len() ==> !((#[trigger] self.cookies@[i]).domain@
                        == domain@ && self.cookies@[i].name@ == name@ && self.cookies@[i].path@
                        == path@),
            },
    {
        let mut i: usize = 0;
        let n = self.cookies.len();
        while i < n
            invariant
                n == self.cookies@.len(),
                i <= n,
                forall|k: int|
                    0 <= k < i ==> !((#[trigger] self.cookies@[k]).domain@ == domain@
                        && self.cookies@[k].name@ == name@ && self.cookies@[k].path@ == path@),
            decreases n - i,
        {
            let c = &self.cookies[i];
            if str_eq(c.domain.as_str(), domain) && str_eq(c.name.as_str(), name) && str_eq(
                c.path.as_str(),
                path,
            ) {
                return Some(i);
            }
            i = i + 1;
        }
        None
    }

    /// Store a cookie, replacing any stored cookie with the same
    /// (domain, name, path).
    pub fn set_cookie(&mut self, cookie: Cookie)
        requires
            old(self).wf(),
        ensures
            final(self).wf(),
            exists|i: int|
                0 <= i < final(self).cookies@.len() && #[trigger] final(self).cookies@[i]
                    == cookie,
            forall|i: int|
                0 <= i < old(self).cookies@.len() ==> cookie_key_kept(
                    #[trigger] old(self).cookies@[i],
                    final(self).cookies@,
                ),
            // a cookie under any other key survives with its exact value
            forall|i: int|
                0 <= i < old(self).cookies@.len() && !(#[trigger] old(self).cookies@[i]).same_cookie_key(
                    cookie,
                ) ==> cookie_from(old(self).cookies@[i], final(self).cookies@),
            final(self).history@ == old(self).history@,
            final(self).bookmarks@ == old(self).bookmarks@,
            final(self).local_storage@ == old(self).local_storage@,
            final(self).next_history_id == old(self).next_history_id,
            final(self).next_bookmark_id == old(self).next_bookmark_id,
    {
        let ghost pre = self.cookies@;
        match self.find_cookie(cookie.domain.as_str(), cookie.name.as_str(), cookie.path.as_str()) {
            Some(i) => {
                self.cookies.remove(i);
                proof {
                    pre.remove_ensures(i as int);
                }
                self.cookies.insert(i, cookie);
                proof {
                    assert(self.cookies@ =~= pre.update(i as int, self.cookies@[i as int]));
                    assert forall|a: int, b: int|
                        0 <= a < b < self.cookies@.len() implies !(#[trigger] self.cookies@[a]).same_cookie_key(
                            (#[trigger] self.cookies@[b]),
                        ) by {
                        assert(self.cookies@[a].same_cookie_key(pre[a]));
                        assert(self.cookies@[b].same_cookie_key(pre[b]));
                        assert(!pre[a].same_cookie_key(pre[b]));
                    }
                    assert(final(self).cookies@[i as int] == cookie);
                    assert forall|a: int| 0 <= a < pre.len() implies cookie_key_kept(
                        #[trigger] pre[a],
                        self.cookies@,
                    ) by {
                        assert(self.cookies@[a].same_cookie_key(pre[a]));
                    }
                }
            },
            None => {
                self.cookies.push(cookie);
                proof {
                    assert(final(self).cookies@[pre.len() as int] == cookie);
                    assert forall|a: int| 0 <= a < pre.len() implies cookie_key_kept(
                        #[trigger] pre[a],
                        self.cookies@,
                    ) by {
                        assert(self.cookies@[a] == pre[a]);
                        assert(self.cookies@[a].same_cookie_key(pre[a]));
                    }
                    assert forall|a: int, b: int|
                        0 <= a < b < self.cookies@.len() implies !(#[trigger] self.cookies@[a]).same_cookie_key(
                            (#[trigger] self.cookies@[b]),
                        ) by {
                        if b < self.cookies@.len() - 1 {
                            assert(self.cookies@[a] == pre[a] && self.cookies@[b] == pre[b]);
                        } else {
                            assert(self.cookies@[a] == pre[a]);
                        }
                    }
                }
            },
        }
    }

    /// Every cookie whose domain contains the queried domain or vice versa.
    pub fn get_cookies(&self, domain: &str) -> (r: Vec<Cookie>)
        ensures
            forall|i: int| 0 <= i < r@.len() ==> cookie_from(#[trigger] r@[i], self.cookies@),
            forall|i: int|
                0 <= i < r@.len() ==> contains_chars((#[trigger] r@[i]).domain@, domain@)
                    || contains_chars(domain@, r@[i].domain@),
            forall|j: int|
                0 <= j < self.cookies@.len() && (contains_chars(
                    (#[trigger] self.cookies@[j]).domain@,
                    domain@,
                ) || contains_chars(domain@, self.cookies@[j].domain@)) ==> cookie_from(
                    self.cookies@[j],
                    r@,
                ),
    {
        let dvec = chars_vec(domain);
        let mut out: Vec<Cookie> = Vec::new();
        let mut i: usize = 0;
        let n = self.cookies.len();
        while i < n
            invariant
                n == self.cookies@.len(),
                dvec@ == domain@,
                i <= n,
                forall|a: int|
                    0 <= a < out@.len() ==> cookie_from(#[trigger] out@[a], self.cookies@),
                forall|a: int|
                    0 <= a < out@.len() ==> contains_chars((#[trigger] out@[a]).domain@, domain@)
                        || contains_chars(domain@, out@[a].domain@),
                forall|j: int|
                    0 <= j < i && (contains_chars(
                        (#[trigger] self.cookies@[j]).domain@,
                        domain@,
                    ) || contains_chars(domain@, self.cookies@[j].domain@)) ==> cookie_from(
                        self.cookies@[j],
                        out@,
                    ),
            decreases n - i,
        {
            let ghost out0 = out@;
            let c = &self.cookies[i];
            let cvec = chars_vec(c.domain.as_str());
            if chars_contain(&cvec, &dvec) || chars_contain(&dvec, &cvec) {
                out.push(c.duplicate());
                proof {
                    assert(self.cookies@[i as int] == out@.last());
                    assert(cookie_from(out@.last(), self.cookies@));
                    assert(out@.last() == self.cookies@[i as int]);
                    assert(cookie_from(self.cookies@[i as int], out@));
                }
            }
            proof {
                assert forall|j: int|
                    0 <= j < i + 1 && (contains_chars(
                        (#[trigger] self.cookies@[j]).domain@,
                        domain@,
                    ) || contains_chars(domain@, self.cookies@[j].domain@)) implies cookie_from(
                    self.cookies@[j],
                    out@,
                ) by {
                    if j < i {
                        let a0 = choose|a0: int|
                            0 <= a0 < out0.len() && #[trigger] out0[a0] == self.cookies@[j];
                        assert(out@[a0] == self.cookies@[j]);
                    }
                }
            }
            i = i + 1;
        }
        out
    }

    /// A snapshot of every stored cookie.
    pub fn get_all_cookies(&self) -> (r: Vec<Cookie>)
        ensures
            r@ == self.cookies@,
    {
        let mut out: Vec<Cookie> = Vec::new();
        let mut i: usize = 0;
        while i < self.cookies.len()
            invariant
                i <= self.cookies@.len(),
                out@ == self.cookies@.subrange(0, i as int),
            decreases self.cookies@.len() - i,
        {
            out.push(self.cookies[i].duplicate());
            proof {
                assert(out@ =~= self.cookies@.subrange(0, i as int + 1));
            }
            i = i + 1;
        }
        proof {
            assert(out@ =~= self.cookies@);
        }
        out
    }

    /// Delete the cookie with the given key, if stored.
    pub fn delete_cookie(&mut self, domain: &str, name: &str, path: &str)
        requires
            old(self).wf(),
        ensures
            final(self).wf(),
            final(self).history@ == old(self).history@,
            final(self).bookmarks@ == old(self).bookmarks@,
            final(self).local_storage@ == old(self).local_storage@,
            forall|i: int|
                0 <= i < final(self).cookies@.len() ==> !((#[trigger] final(self).cookies@[i]).domain@ == domain@ && final(self).cookies@[i].name@ == name@
                    && final(self).cookies@[i].path@ == path@),
            // exactly the keyed cookie is removed; everything else survives
            (exists|i: int|
                {
                    &&& 0 <= i < old(self).cookies@.len()
                    &&& (#[trigger] old(self).cookies@[i]).domain@ == domain@
                    &&& old(self).cookies@[i].name@ == name@
                    &&& old(self).cookies@[i].path@ == path@
                    &&& final(self).cookies@ == old(self).cookies@.remove(i)
                }) || (final(self).cookies@ == old(self).cookies@ && (forall|i: int|
                0 <= i < old(self).cookies@.len() ==> !((#[trigger] old(self).cookies@[i]).domain@
                    == domain@ && old(self).cookies@[i].name@ == name@
                    && old(self).cookies@[i].path@ == path@))),
    {
        let ghost pre = self.cookies@;
        match self.find_cookie(domain, name, path) {
            Some(i) => {
                self.cookies.remove(i);
                proof {
                    pre.remove_ensures(i as int);
                    assert forall|j: int|
                        0 <= j < self.cookies@.len() implies !((#[trigger] self.cookies@[j]).domain@
                        == domain@ && self.cookies@[j].name@ == name@ && self.cookies@[j].path@
                        == path@) by {
                        let j0 = if j < i {
                            j
                        } else {
                            j + 1
                        };
                        assert(self.cookies@[j] == pre[j0]);
                        if j0 != i {
                            assert(!pre[j0].same_cookie_key(pre[i as int]) || !pre[
                                i as int].same_cookie_key(pre[j0]));
                        }
                    }
                    assert forall|a: int, b: int|
                        0 <= a < b < self.cookies@.len() implies !(#[trigger] self.cookies@[a]).same_cookie_key(
                            (#[trigger] self.cookies@[b]),
                        ) by {
                        let a0 = if a < i {
                            a
                        } else {
                            a + 1
                        };
                        let b0 = if b < i {
                            b
                        } else {
                            b + 1
                        };
                        assert(self.cookies@[a] == pre[a0]);
                        assert(self.cookies@[b] == pre[b0]);
                    }
                }
            },
            None => {},
        }
    }

    /// Drop every cookie.
    pub fn clear_cookies(&mut self)
        requires
            old(self).wf(),
        ensures
            final(self).wf(),
            final(self).cookies@.len() == 0,
            final(self).history@ == old(self).history@,
            final(self).bookmarks@ == old(self).bookmarks@,
            final(self).local_storage@ == old(self).local_storage@,
            final(self).next_history_id == old(self).next_history_id,
            final(self).next_bookmark_id == old(self).next_bookmark_id,
    {
        self.cookies.clear();
    }
}


/// Whether `e` is one of the stored history entries.
pub open spec fn entry_from(e: HistoryEntry, s: Seq<HistoryEntry>) -> bool {
    exists|j: int| 0 <= j < s.len() && #[trigger] s[j] == e
}

/// Whether `b` is one of the stored bookmarks.
pub open spec fn bookmark_from(b: Bookmark, s: Seq<Bookmark>) -> bool {
    exists|j: int| 0 <= j < s.len() && #[trigger] s[j] == b
}

/// Whether some stored history entry carries the URL.
pub open spec fn history_has_url(s: Seq<HistoryEntry>, url: Seq<char>) -> bool {
    exists|i: int| 0 <= i < s.len() && (#[trigger] s[i]).url@ == url
}

impl StorageEngine {
    fn find_history(&self, url: &str) -> (r: Option<usize>)
        ensures
            match r {
                Some(i) => i < self.history@.len() && self.history@[i as int].url@ == url@,
                None => !history_has_url(self.history@, url@),
            },
    {
        let mut i: usize = 0;
        let n = self.history.len();
        while i < n
            invariant
                n == self.history@.len(),
                i <= n,
                forall|k: int| 0 <= k < i ==> (#[trigger] self.history@[k]).url@ != url@,
            decreases n - i,
        {
            if str_eq(self.history[i].url.as_str(), url) {
                return Some(i);
            }
            i = i + 1;
        }
        None
    }

    /// Record a visit: a known URL has its count bumped and its time and
    /// title refreshed; a new URL gets a fresh entry under a fresh id.
    pub fn add_history(&mut self, url: &str, title: Option<&str>, now: i64)
        requires
            old(self).wf(),
        ensures
            final(self).wf(),
            history_has_url(final(self).history@, url@),
            final(self).cookies@ == old(self).cookies@,
            final(self).bookmarks@ == old(self).bookmarks@,
            final(self).local_storage@ == old(self).local_storage@,
            // a repeat visit bumps the entry in place
            history_has_url(old(self).history@, url@) ==> exists|i: int|
                {
                    &&& 0 <= i < old(self).history@.len()
                    &&& (#[trigger] old(self).history@[i]).url@ == url@
                    &&& final(self).history@ == old(self).history@.update(
                        i,
                        final(self).history@[i],
                    )
                    &&& final(self).history@[i].id == old(self).history@[i].id
                    &&& final(self).history@[i].url == old(self).history@[i].url
                    &&& final(self).history@[i].last_visit == now
                    &&& final(self).history@[i].visit_count == (
                    if old(self).history@[i].visit_count < 0x7FFFFFFFi32 {
                        old(self).history@[i].visit_count + 1
                    } else {
                        old(self).history@[i].visit_count as int
                    })
                    &&& (match title {
                        Some(t) => final(self).history@[i].title == Some(
                            final(self).history@[i].title->0,
                        ) && (final(self).history@[i].title->0)@ == t@,
                        None => final(self).history@[i].title == old(self).history@[i].title,
                    })
                },
            // a first visit appends a fresh entry
            !history_has_url(old(self).history@, url@) ==> {
                &&& final(self).history@ == old(self).history@.push(final(self).history@.last())
                &&& final(self).history@.last().url@ == url@
                &&& final(self).history@.last().visit_count == 1
                &&& final(self).history@.last().last_visit == now
            },
    {
        let ghost pre = self.history@;
        match self.find_history(url) {
            Some(i) => {
                let e = self.history.remove(i);
                proof {
                    pre.remove_ensures(i as int);
                }
                let new_count = if e.visit_count < 0x7FFFFFFFi32 {
                    e.visit_count + 1
                } else {
                    e.visit_count
                };
                let new_e = HistoryEntry {
                    id: e.id,
                    url: e.url,
                    title: match title {
                        Some(t) => Some(t.to_owned()),
                        None => e.title,
                    },
                    visit_count: new_count,
                    last_visit: now,
                };
                self.history.insert(i, new_e);
                proof {
                    assert(self.history@ =~= pre.update(i as int, self.history@[i as int]));
                    assert(self.history@[i as int].url@ == url@);
                    assert forall|a: int, b: int|
                        0 <= a < b < self.history@.len() implies (#[trigger] self.history@[a]).url@
                        != (#[trigger] self.history@[b]).url@ by {
                        assert(self.history@[a].url@ == pre[a].url@);
                        assert(self.history@[b].url@ == pre[b].url@);
                    }
                }
            },
            None => {
                let id = self.next_history_id;
                if id < 0x7FFFFFFFFFFFFFFEi64 {
                    self.next_history_id = id + 1;
                }
                let new_e = HistoryEntry {
                    id,
                    url: url.to_owned(),
                    title: match title {
                        Some(t) => Some(t.to_owned()),
                        None => None,
                    },
                    visit_count: 1,
                    last_visit: now,
                };
                self.history.push(new_e);
                proof {
                    assert(self.history@.last().url@ == url@);
                    assert forall|a: int, b: int|
                        0 <= a < b < self.history@.len() implies (#[trigger] self.history@[a]).url@
                        != (#[trigger] self.history@[b]).url@ by {
                        if b < self.history@.len() - 1 {
                            assert(self.history@[a] == pre[a] && self.history@[b] == pre[b]);
                        } else {
                            assert(self.history@[a] == pre[a]);
                        }
                    }
                }
            },
        }
    }

    /// The most recent history, newest first, at most `limit` entries: a
    /// prefix of the whole store sorted by last visit.
    pub fn get_history(&self, limit: usize) -> (r: Vec<HistoryEntry>)
        ensures
            r@.len() == (if self.history@.len() <= limit {
                self.history@.len() as int
            } else {
                limit as int
            }),
            forall|a: int, b: int|
                0 <= a < b < r@.len() ==> (#[trigger] r@[a]).last_visit >= (
                #[trigger] r@[b]).last_visit,
            forall|i: int| 0 <= i < r@.len() ==> entry_from(#[trigger] r@[i], self.history@),
            exists|full: Seq<HistoryEntry>|
                {
                    &&& #[trigger] full.to_multiset() == self.history@.to_multiset()
                    &&& (forall|a: int, b: int|
                        0 <= a < b < full.len() ==> (#[trigger] full[a]).last_visit >= (
                        #[trigger] full[b]).last_visit)
                    &&& r@ == full.subrange(
                        0,
                        if self.history@.len() <= limit {
                            self.history@.len() as int
                        } else {
                            limit as int
                        },
                    )
                },
    {
        let all = self.snapshot_history();
        proof {
            assert forall|k: int| 0 <= k < all@.len() implies entry_from(
                #[trigger] all@[k],
                self.history@,
            ) by {
                assert(self.history@[k] == all@[k]);
            }
        }
        let sorted = sort_history_desc(all, Ghost(self.history@));
        let ghost full = sorted@;
        let mut out: Vec<HistoryEntry> = Vec::new();
        let mut i: usize = 0;
        let n = sorted.len();
        let take = if n <= limit {
            n
        } else {
            limit
        };
        while i < take
            invariant
                n == sorted@.len(),
                take <= n,
                i <= take,
                out@ == sorted@.subrange(0, i as int),
                sorted@.to_multiset() == self.history@.to_multiset(),
                forall|k: int| 0 <= k < n ==> entry_from(#[trigger] sorted@[k], self.history@),
                forall|a: int, b: int|
                    0 <= a < b < n ==> (#[trigger] sorted@[a]).last_visit >= (
                    #[trigger] sorted@[b]).last_visit,
            decreases take - i,
        {
            out.push(sorted[i].duplicate());
            proof {
                assert(out@ =~= sorted@.subrange(0, i as int + 1));
            }
            i = i + 1;
        }
        proof {
            assert(sorted@.to_multiset() == self.history@.to_multiset());
        }
        out
    }

    fn snapshot_history(&self) -> (r: Vec<HistoryEntry>)
        ensures
            r@ == self.history@,
    {
        let mut out: Vec<HistoryEntry> = Vec::new();
        let mut i: usize = 0;
        while i < self.history.len()
            invariant
                i <= self.history@.len(),
                out@ == self.history@.subrange(0, i as int),
            decreases self.history@.len() - i,
        {
            out.push(self.history[i].duplicate());
            proof {
                assert(out@ =~= self.history@.subrange(0, i as int + 1));
            }
            i = i + 1;
        }
        proof {
            assert(out@ =~= self.history@);
        }
        out
    }

    /// History entries whose URL or title contains the query, compared with
    /// ASCII case folded away; newest first, at most 100.
    pub fn search_history(&self, query: &str) -> (r: Vec<HistoryEntry>)
        ensures
            r@.len() <= 100,
            r@.len() == (if match_count(self.history@, query@, self.history@.len() as int) <= 100 {
                match_count(self.history@, query@, self.history@.len() as int)
            } else {
                100int
            }),
            forall|i: int| 0 <= i < r@.len() ==> entry_matches(#[trigger] r@[i], query@),
            forall|i: int| 0 <= i < r@.len() ==> entry_from(#[trigger] r@[i], self.history@),
            forall|a: int, b: int|
                0 <= a < b < r@.len() ==> (#[trigger] r@[a]).last_visit >= (
                #[trigger] r@[b]).last_visit,
            // when at most 100 entries match, every matching entry is included
            match_count(self.history@, query@, self.history@.len() as int) <= 100 ==> forall|
                j: int,
            |
                0 <= j < self.history@.len() && entry_matches(#[trigger] self.history@[j], query@)
                    ==> entry_from(self.history@[j], r@),
    {
        let qlow = lower_codes_vec(query);
        let mut matched: Vec<HistoryEntry> = Vec::new();
        let mut i: usize = 0;
        let n = self.history.len();
        while i < n
            invariant
                n == self.history@.len(),
                qlow@.len() == query@.len(),
                forall|k: int| 0 <= k < query@.len() ==> qlow@[k] == lower_code(#[trigger] query@[k]),
                i <= n,
                matched@.len() == match_count(self.history@, query@, i as int),
                forall|a: int| 0 <= a < matched@.len() ==> entry_matches(
                    #[trigger] matched@[a],
                    query@,
                ),
                forall|a: int| 0 <= a < matched@.len() ==> entry_from(
                    #[trigger] matched@[a],
                    self.history@,
                ),
                forall|j: int|
                    0 <= j < i && entry_matches(#[trigger] self.history@[j], query@)
                        ==> entry_from(self.history@[j], matched@),
            decreases n - i,
        {
            let ghost mpre = matched@;
            let e = &self.history[i];
            let hit = matches_query(e, &qlow, Ghost(query@));
            if hit {
                matched.push(e.duplicate());
                proof {
                    assert(self.history@[i as int] == matched@.last());
                    assert(entry_from(matched@.last(), self.history@));
                    assert(entry_from(self.history@[i as int], matched@));
                }
            }
            proof {
                assert forall|j: int|
                    0 <= j < i + 1 && entry_matches(#[trigger] self.history@[j], query@)
                        implies entry_from(self.history@[j], matched@) by {
                    if j < i {
                        let a0 = choose|a0: int|
                            0 <= a0 < mpre.len() && #[trigger] mpre[a0] == self.history@[j];
                        assert(matched@[a0] == self.history@[j]);
                    }
                }
            }
            i = i + 1;
        }
        let ghost msnap = matched@;
        proof {
            assert forall|a: int| 0 <= a < matched@.len() implies entry_from(
                #[trigger] matched@[a],
                msnap,
            ) by {
                assert(msnap[a] == matched@[a]);
            }
        }
        let sorted = sort_history_desc(matched, Ghost(msnap));
        proof {
            assert forall|a: int|
                0 <= a < sorted@.len() implies entry_matches(#[trigger] sorted@[a], query@)
                && entry_from(sorted@[a], self.history@) by {
                assert(entry_from(sorted@[a], msnap));
                let j = choose|j: int| 0 <= j < msnap.len() && #[trigger] msnap[j] == sorted@[a];
                assert(entry_matches(msnap[j], query@));
                assert(entry_from(msnap[j], self.history@));
            }
            assert forall|j: int|
                0 <= j < self.history@.len() && entry_matches(#[trigger] self.history@[j], query@)
                    implies entry_from(self.history@[j], sorted@) by {
                broadcast use vstd::multiset::group_multiset_axioms;

                assert(entry_from(self.history@[j], msnap));
                let a0 = choose|a0: int|
                    0 <= a0 < msnap.len() && #[trigger] msnap[a0] == self.history@[j];
                msnap.to_multiset_ensures();
                sorted@.to_multiset_ensures();
                assert(msnap.contains(self.history@[j]));
                assert(msnap.to_multiset().count(self.history@[j]) > 0);
                assert(sorted@.contains(self.history@[j]));
                let b0 = choose|b0: int|
                    0 <= b0 < sorted@.len() && #[trigger] sorted@[b0] == self.history@[j];
                assert(entry_from(self.history@[j], sorted@));
            }
        }
        let mut out: Vec<HistoryEntry> = Vec::new();
        let mut k: usize = 0;
        let m = sorted.len();
        let take = if m <= 100 {
            m
        } else {
            100
        };
        while k < take
            invariant
                m == sorted@.len(),
                m == match_count(self.history@, query@, self.history@.len() as int),
                take == (if m <= 100 {
                    m as int
                } else {
                    100int
                }),
                k <= take,
                out@ == sorted@.subrange(0, k as int),
                forall|a: int| 0 <= a < m ==> entry_matches(#[trigger] sorted@[a], query@),
                forall|a: int| 0 <= a < m ==> entry_from(#[trigger] sorted@[a], self.history@),
                forall|a: int, b: int|
                    0 <= a < b < m ==> (#[trigger] sorted@[a]).last_visit >= (
                    #[trigger] sorted@[b]).last_visit,
                forall|j: int|
                    0 <= j < self.history@.len() && entry_matches(
                        #[trigger] self.history@[j],
                        query@,
                    ) ==> entry_from(self.history@[j], sorted@),
            decreases take - k,
        {
            out.push(sorted[k].duplicate());
            proof {
                assert(out@ =~= sorted@.subrange(0, k as int + 1));
            }
            k = k + 1;
        }
        proof {
            if m <= 100 {
                assert(out@ =~= sorted@);
                assert forall|j: int|
                    0 <= j < self.history@.len() && entry_matches(
                        #[trigger] self.history@[j],
                        query@,
                    ) implies entry_from(self.history@[j], out@) by {
                    let b0 = choose|b0: int|
                        0 <= b0 < sorted@.len() && #[trigger] sorted@[b0] == self.history@[j];
                    assert(out@[b0] == self.history@[j]);
                }
            }
        }
        out
    }

    /// Drop all history.
    pub fn clear_history(&mut self)
        requires
            old(self).wf(),
        ensures
            final(self).wf(),
            final(self).history@.len() == 0,
            final(self).cookies@ == old(self).cookies@,
            final(self).bookmarks@ == old(self).bookmarks@,
            final(self).local_storage@ == old(self).local_storage@,
            final(self).next_history_id == old(self).next_history_id,
            final(self).next_bookmark_id == old(self).next_bookmark_id,
    {
        self.history.clear();
    }

    /// Save a bookmark under a fresh id and hand the id back. In the
    /// (practically unreachable) case that the id space is exhausted the
    /// store is left unchanged.
    pub fn add_bookmark(&mut self, url: &str, title: &str, folder: Option<&str>, now: i64) -> (r:
        i64)
        requires
            old(self).wf(),
        ensures
            final(self).wf(),
            r == old(self).next_bookmark_id,
            final(self).cookies@ == old(self).cookies@,
            final(self).history@ == old(self).history@,
            final(self).local_storage@ == old(self).local_storage@,
            old(self).next_bookmark_id < 0x7FFFFFFFFFFFFFFEi64 ==> {
                &&& final(self).bookmarks@.len() == old(self).bookmarks@.len() + 1
                &&& (forall|i: int|
                    0 <= i < old(self).bookmarks@.len() ==> final(self).bookmarks@[i] == (
                    #[trigger] old(self).bookmarks@[i]))
                &&& final(self).bookmarks@.last().id == r
                &&& final(self).bookmarks@.last().url@ == url@
                &&& final(self).bookmarks@.last().title@ == title@
                &&& (match folder {
                    Some(f) => final(self).bookmarks@.last().folder == Some(
                        final(self).bookmarks@.last().folder->0,
                    ) && (final(self).bookmarks@.last().folder->0)@ == f@,
                    None => final(self).bookmarks@.last().folder is None,
                })
                &&& final(self).bookmarks@.last().created_at == now
                &&& final(self).next_bookmark_id == old(self).next_bookmark_id + 1
            },
            old(self).next_bookmark_id >= 0x7FFFFFFFFFFFFFFEi64 ==> final(self).bookmarks@
                == old(self).bookmarks@,
    {
        let id = self.next_bookmark_id;
        if id < 0x7FFFFFFFFFFFFFFEi64 {
            self.next_bookmark_id = id + 1;
            let b = Bookmark {
                id,
                url: url.to_owned(),
                title: title.to_owned(),
                folder: match folder {
                    Some(f) => Some(f.to_owned()),
                    None => None,
                },
                created_at: now,
            };
            self.bookmarks.push(b);
            proof {
                assert forall|a: int, b0: int|
                    0 <= a < b0 < self.bookmarks@.len() implies (#[trigger] self.bookmarks@[a]).id
                    != (#[trigger] self.bookmarks@[b0]).id by {
                    if b0 < self.bookmarks@.len() - 1 {
                        assert(self.bookmarks@[a] == old(self).bookmarks@[a]);
                        assert(self.bookmarks@[b0] == old(self).bookmarks@[b0]);
                    } else {
                        assert(self.bookmarks@[a] == old(self).bookmarks@[a]);
                        assert(self.bookmarks@[b0].id == id);
                    }
                }
            }
        }
        id
    }

    /// Every bookmark, exactly once, newest first.
    pub fn get_bookmarks(&self) -> (r: Vec<Bookmark>)
        ensures
            r@.len() == self.bookmarks@.len(),
            r@.to_multiset() == self.bookmarks@.to_multiset(),
            forall|a: int, b: int|
                0 <= a < b < r@.len() ==> (#[trigger] r@[a]).created_at >= (
                #[trigger] r@[b]).created_at,
            forall|i: int| 0 <= i < r@.len() ==> bookmark_from(#[trigger] r@[i], self.bookmarks@),
    {
        let mut all: Vec<Bookmark> = Vec::new();
        let mut i: usize = 0;
        while i < self.bookmarks.len()
            invariant
                i <= self.bookmarks@.len(),
                all@ == self.bookmarks@.subrange(0, i as int),
            decreases self.bookmarks@.len() - i,
        {
            all.push(self.bookmarks[i].duplicate());
            proof {
                assert(all@ =~= self.bookmarks@.subrange(0, i as int + 1));
            }
            i = i + 1;
        }
        proof {
            assert(all@ =~= self.bookmarks@);
            assert forall|k: int| 0 <= k < all@.len() implies bookmark_from(
                #[trigger] all@[k],
                self.bookmarks@,
            ) by {
                assert(self.bookmarks@[k] == all@[k]);
            }
        }
        sort_bookmarks_desc(all, Ghost(self.bookmarks@))
    }

    /// Delete the bookmark with the given id, if saved.
    pub fn delete_bookmark(&mut self, id: i64)
        requires
            old(self).wf(),
        ensures
            final(self).wf(),
            final(self).cookies@ == old(self).cookies@,
            final(self).history@ == old(self).history@,
            final(self).local_storage@ == old(self).local_storage@,
            forall|i: int| 0 <= i < final(self).bookmarks@.len() ==> (#[trigger] final(self).bookmarks@[i]).id != id,
            // exactly the identified bookmark is removed; everything else survives
            (exists|i: int|
                {
                    &&& 0 <= i < old(self).bookmarks@.len()
                    &&& (#[trigger] old(self).bookmarks@[i]).id == id
                    &&& final(self).bookmarks@ == old(self).bookmarks@.remove(i)
                }) || (final(self).bookmarks@ == old(self).bookmarks@ && (forall|i: int|
                0 <= i < old(self).bookmarks@.len() ==> (#[trigger] old(self).bookmarks@[i]).id
                    != id)),
    {
        let ghost pre = self.bookmarks@;
        let mut i: usize = 0;
        let n = self.bookmarks.len();
        while i < n
            invariant
                old(self).wf(),
                self.cookies == old(self).cookies,
                self.history == old(self).history,
                self.bookmarks == old(self).bookmarks,
                self.local_storage == old(self).local_storage,
                self.next_history_id == old(self).next_history_id,
                self.next_bookmark_id == old(self).next_bookmark_id,
                pre == self.bookmarks@,
                n == pre.len(),
                i <= n,
                forall|k: int| 0 <= k < i ==> (#[trigger] pre[k]).id != id,
            decreases n - i,
        {
            if self.bookmarks[i].id == id {
                self.bookmarks.remove(i);
                proof {
                    pre.remove_ensures(i as int);
                    assert forall|j: int|
                        0 <= j < self.bookmarks@.len() implies (#[trigger] self.bookmarks@[j]).id
                        != id by {
                        let j0 = if j < i {
                            j
                        } else {
                            j + 1
                        };
                        assert(self.bookmarks@[j] == pre[j0]);
                        if j0 != i {
                            assert(pre[j0].id != pre[i as int].id);
                        }
                    }
                    assert forall|a: int, b: int|
                        0 <= a < b < self.bookmarks@.len() implies (#[trigger] self.bookmarks@[a]).id
                        != (#[trigger] self.bookmarks@[b]).id by {
                        let a0 = if a < i {
                            a
                        } else {
                            a + 1
                        };
                        let b0 = if b < i {
                            b
                        } else {
                            b + 1
                        };
                        assert(self.bookmarks@[a] == pre[a0]);
                        assert(self.bookmarks@[b] == pre[b0]);
                    }
                    assert forall|a: int|
                        0 <= a < self.bookmarks@.len() implies (#[trigger] self.bookmarks@[a]).id
                        < self.next_bookmark_id by {
                        let a0 = if a < i {
                            a
                        } else {
                            a + 1
                        };
                        assert(self.bookmarks@[a] == pre[a0]);
                    }
                }
                return ;
            }
            i = i + 1;
        }
    }

    fn find_origin(&self, origin: &str) -> (r: Option<usize>)
        ensures
            match r {
                Some(i) => i < self.local_storage@.len() && self.local_storage@[i as int].0@
                    == origin@ && forall|m: int|
                    0 <= m < i ==> (#[trigger] self.local_storage@[m]).0@ != origin@,
                None => forall|i: int|
                    0 <= i < self.local_storage@.len() ==> (#[trigger] self.local_storage@[i]).0@
                        != origin@,
            },
    {
        let mut i: usize = 0;
        let n = self.local_storage.len();
        while i < n
            invariant
                n == self.local_storage@.len(),
                i <= n,
                forall|k: int| 0 <= k < i ==> (#[trigger] self.local_storage@[k]).0@ != origin@,
            decreases n - i,
        {
            if str_eq(self.local_storage[i].0.as_str(), origin) {
                return Some(i);
            }
            i = i + 1;
        }
        None
    }

    /// Store one key under an origin, replacing any stored value.
    pub fn set_local_storage(&mut self, origin: &str, key: &str, value: &str)
        requires
            old(self).wf(),
        ensures
            final(self).wf(),
            ls_lookup(final(self).local_storage@, origin@, key@) == Some(value@),
            final(self).cookies@ == old(self).cookies@,
            final(self).history@ == old(self).history@,
            final(self).bookmarks@ == old(self).bookmarks@,
    {
        let ghost pre = self.local_storage@;
        match self.find_origin(origin) {
            Some(i) => {
                let mut pair = self.local_storage.remove(i);
                proof {
                    pre.remove_ensures(i as int);
                }
                upsert_item(&mut pair.1, key, value);
                self.local_storage.insert(i, pair);
                proof {
                    assert(self.local_storage@ =~= pre.update(
                        i as int,
                        self.local_storage@[i as int],
                    ));
                    assert forall|a: int, b: int|
                        0 <= a < b < self.local_storage@.len() implies (
                    #[trigger] self.local_storage@[a]).0@ != (
                    #[trigger] self.local_storage@[b]).0@ by {
                        assert(self.local_storage@[a].0@ == pre[a].0@);
                        assert(self.local_storage@[b].0@ == pre[b].0@);
                    }
                    assert forall|m: int| 0 <= m < i implies (
                    #[trigger] self.local_storage@[m]).0@ != origin@ by {
                        assert(self.local_storage@[m] == pre[m]);
                    }
                    lemma_ls_skip(self.local_storage@, origin@, key@, i as int);
                    assert(self.local_storage@.skip(i as int)[0] == self.local_storage@[i as int]);
                    assert(self.local_storage@[i as int].0@ == origin@);
                }
            },
            None => {
                let mut items: Vec<(String, String)> = Vec::new();
                items.push((key.to_owned(), value.to_owned()));
                let len0 = self.local_storage.len();
                self.local_storage.push((origin.to_owned(), items));
                proof {
                    assert forall|a: int, b: int|
                        0 <= a < b < self.local_storage@.len() implies (
                    #[trigger] self.local_storage@[a]).0@ != (
                    #[trigger] self.local_storage@[b]).0@ by {
                        if b < self.local_storage@.len() - 1 {
                            assert(self.local_storage@[a] == pre[a]);
                            assert(self.local_storage@[b] == pre[b]);
                        } else {
                            assert(self.local_storage@[a] == pre[a]);
                            assert(self.local_storage@[b].0@ == origin@);
                        }
                    }
                    assert forall|m: int| 0 <= m < len0 implies (
                    #[trigger] self.local_storage@[m]).0@ != origin@ by {
                        assert(self.local_storage@[m] == pre[m]);
                    }
                    lemma_ls_skip(self.local_storage@, origin@, key@, len0 as int);
                    assert(self.local_storage@.skip(len0 as int)[0]
                        == self.local_storage@[len0 as int]);
                    assert(self.local_storage@[len0 as int].0@ == origin@);
                    assert(self.local_storage@[len0 as int].1@[0].0@ == key@);
                    assert(self.local_storage@[len0 as int].1@[0].1@ == value@);
                }
            },
        }
    }

    /// The value stored for a key under an origin.
    pub fn get_local_storage(&self, origin: &str, key: &str) -> (r: Option<String>)
        ensures
            match r {
                Some(v) => ls_lookup(self.local_storage@, origin@, key@) == Some(v@),
                None => ls_lookup(self.local_storage@, origin@, key@) is None,
            },
    {
        match self.find_origin(origin) {
            Some(i) => {
                proof {
                    lemma_ls_skip(self.local_storage@, origin@, key@, i as int);
                    assert(self.local_storage@.skip(i as int)[0]
                        == self.local_storage@[i as int]);
                }
                let items = &self.local_storage[i].1;
                let mut k: usize = 0;
                let n = items.len();
                while k < n
                    invariant
                        items@ == self.local_storage@[i as int].1@,
                        ls_lookup(self.local_storage@, origin@, key@) == items_lookup(
                            items@,
                            key@,
                        ),
                        n == items@.len(),
                        k <= n,
                        forall|m: int| 0 <= m < k ==> (#[trigger] items@[m]).0@ != key@,
                    decreases n - k,
                {
                    if str_eq(items[k].0.as_str(), key) {
                        proof {
                            lemma_items_skip(items@, key@, k as int);
                            assert(items@.skip(k as int)[0] == items@[k as int]);
                        }
                        return Some(items[k].1.clone());
                    }
                    k = k + 1;
                }
                proof {
                    lemma_items_skip(items@, key@, n as int);
                    assert(items@.skip(n as int) =~= Seq::<(String, String)>::empty());
                }
                None
            },
            None => {
                proof {
                    lemma_ls_skip(
                        self.local_storage@,
                        origin@,
                        key@,
                        self.local_storage@.len() as int,
                    );
                    assert(self.local_storage@.skip(self.local_storage@.len() as int)
                        =~= Seq::<(String, Vec<(String, String)>)>::empty());
                }
                None
            },
        }
    }

    /// Every (key, value) stored under an origin, in storage order; empty
    /// for an unknown origin.
    pub fn get_all_local_storage(&self, origin: &str) -> (r: Vec<(String, String)>)
        ensures
            (exists|i: int|
                0 <= i < self.local_storage@.len() && (#[trigger] self.local_storage@[i]).0@
                    == origin@ && r@.len() == self.local_storage@[i].1@.len() && (forall|m: int|
                    0 <= m < r@.len() ==> (#[trigger] r@[m]).0@
                        == self.local_storage@[i].1@[m].0@ && r@[m].1@
                        == self.local_storage@[i].1@[m].1@)) || ((forall|i: int|
                0 <= i < self.local_storage@.len() ==> (#[trigger] self.local_storage@[i]).0@
                    != origin@) && r@.len() == 0),
    {
        match self.find_origin(origin) {
            Some(i) => {
                let items = &self.local_storage[i].1;
                let mut out: Vec<(String, String)> = Vec::new();
                let mut k: usize = 0;
                let n = items.len();
                while k < n
                    invariant
                        items@ == self.local_storage@[i as int].1@,
                        n == items@.len(),
                        k <= n,
                        out@.len() == k,
                        forall|m: int|
                            0 <= m < k ==> (#[trigger] out@[m]).0@ == items@[m].0@ && out@[m].1@
                                == items@[m].1@,
                    decreases n - k,
                {
                    out.push((items[k].0.clone(), items[k].1.clone()));
                    k = k + 1;
                }
                out
            },
            None => Vec::new(),
        }
    }

    /// Drop everything stored under one origin.
    pub fn clear_local_storage(&mut self, origin: &str)
        requires
            old(self).wf(),
        ensures
            final(self).wf(),
            forall|i: int|
                0 <= i < final(self).local_storage@.len() ==> (#[trigger] final(self).local_storage@[i]).0@ != origin@,
    {
        let ghost pre = self.local_storage@;
        match self.find_origin(origin) {
            Some(i) => {
                self.local_storage.remove(i);
                proof {
                    pre.remove_ensures(i as int);
                    assert forall|j: int|
                        0 <= j < self.local_storage@.len() implies (
                    #[trigger] self.local_storage@[j]).0@ != origin@ by {
                        let j0 = if j < i {
                            j
                        } else {
                            j + 1
                        };
                        assert(self.local_storage@[j] == pre[j0]);
                        if j0 != i {
                            assert(pre[j0].0@ != pre[i as int].0@);
                        }
                    }
                    assert forall|a: int, b: int|
                        0 <= a < b < self.local_storage@.len() implies (
                    #[trigger] self.local_storage@[a]).0@ != (
                    #[trigger] self.local_storage@[b]).0@ by {
                        let a0 = if a < i {
                            a
                        } else {
                            a + 1
                        };
                        let b0 = if b < i {
                            b
                        } else {
                            b + 1
                        };
                        assert(self.local_storage@[a] == pre[a0]);
                        assert(self.local_storage@[b] == pre[b0]);
                    }
                }
            },
            None => {},
        }
    }

    /// Drop the local storage of every origin.
    pub fn clear_all_local_storage(&mut self)
        requires
            old(self).wf(),
        ensures
            final(self).wf(),
            final(self).local_storage@.len() == 0,
            final(self).cookies@ == old(self).cookies@,
            final(self).history@ == old(self).history@,
            final(self).bookmarks@ == old(self).bookmarks@,
    {
        self.local_storage.clear();
    }

    /// Counts of everything currently stored.
    pub fn get_stats(&self) -> (r: ImportExportStats)
        ensures
            r.cookies_count == self.cookies@.len(),
            r.history_count == self.history@.len(),
            r.bookmarks_count == self.bookmarks@.len(),
            r.local_storage_origins == self.local_storage@.len(),
            r.local_storage_items == (if items_total(self.local_storage@) <= usize::MAX {
                items_total(self.local_storage@)
            } else {
                usize::MAX as int
            }),
    {
        let mut items: usize = 0;
        let mut i: usize = 0;
        let n = self.local_storage.len();
        while i < n
            invariant
                n == self.local_storage@.len(),
                i <= n,
                items as int == (if items_total(self.local_storage@.subrange(0, i as int))
                    <= usize::MAX {
                    items_total(self.local_storage@.subrange(0, i as int))
                } else {
                    usize::MAX as int
                }),
            decreases n - i,
        {
            proof {
                let s1 = self.local_storage@.subrange(0, i as int + 1);
                assert(s1.drop_last() =~= self.local_storage@.subrange(0, i as int));
                assert(s1.last() == self.local_storage@[i as int]);
                lemma_items_total_nonneg(self.local_storage@.subrange(0, i as int));
            }
            let added = self.local_storage[i].1.len();
            if items <= usize::MAX - added {
                items = items + added;
            } else {
                items = usize::MAX;
            }
            i = i + 1;
        }
        proof {
            assert(self.local_storage@.subrange(0, n as int) =~= self.local_storage@);
        }
        ImportExportStats {
            cookies_count: self.cookies.len(),
            history_count: self.history.len(),
            bookmarks_count: self.bookmarks.len(),
            local_storage_origins: self.local_storage.len(),
            local_storage_items: items,
        }
    }

    /// Drop everything and restart the id counters.
    pub fn clear_all(&mut self)
        requires
            old(self).wf(),
        ensures
            final(self).wf(),
            final(self).cookies@.len() == 0,
            final(self).history@.len() == 0,
            final(self).bookmarks@.len() == 0,
            final(self).local_storage@.len() == 0,
            final(self).next_history_id == 1,
            final(self).next_bookmark_id == 1,
    {
        self.cookies.clear();
        self.history.clear();
        self.bookmarks.clear();
        self.local_storage.clear();
        self.next_history_id = 1;
        self.next_bookmark_id = 1;
    }
}

/// Partial totals of local-storage items are never negative.
proof fn lemma_items_total_nonneg(s: Seq<(String, Vec<(String, String)>)>)
    ensures
        items_total(s) >= 0,
    decreases s.len(),
{
    if s.len() > 0 {
        lemma_items_total_nonneg(s.drop_last());
    }
}

/// Whether the entry's URL or title contains the lowered query.
fn matches_query(e: &HistoryEntry, qlow: &Vec<u32>, query: Ghost<Seq<char>>) -> (r: bool)
    requires
        qlow@.len() == query@.len(),
        forall|k: int| 0 <= k < query@.len() ==> qlow@[k] == lower_code(#[trigger] query@[k]),
    ensures
        r == entry_matches(*e, query@),
{
    let url_low = lower_codes_vec(e.url.as_str());
    if codes_contain(&url_low, &qlow) {
        proof {
            let w = choose|w: int| #[trigger] codes_match_at(url_low@, qlow@, w);
            assert forall|k: int|
                0 <= k < query@.len() implies lower_code(e.url@[w + k]) == lower_code(
                #[trigger] query@[k]) by {
                assert(url_low@[w + k] == qlow@[k]);
            }
            assert(ci_match_at(e.url@, query@, w));
        }
        return true;
    }
    let ghost url_low_view = url_low@;
    match &e.title {
        Some(t) => {
            let t_low = lower_codes_vec(t.as_str());
            if codes_contain(&t_low, &qlow) {
                proof {
                    let w = choose|w: int| #[trigger] codes_match_at(t_low@, qlow@, w);
                    assert forall|k: int|
                        0 <= k < query@.len() implies lower_code(t@[w + k]) == lower_code(
                        #[trigger] query@[k]) by {
                        assert(t_low@[w + k] == qlow@[k]);
                    }
                    assert(ci_match_at(t@, query@, w));
                }
                return true;
            }
            proof {
                lemma_no_codes_no_ci(e.url@, url_low_view, query@, qlow@);
                lemma_no_codes_no_ci(t@, t_low@, query@, qlow@);
            }
            false
        },
        None => {
            proof {
                lemma_no_codes_no_ci(e.url@, url_low_view, query@, qlow@);
            }
            false
        },
    }
}

/// When no position of the lowered codes matches, there is no
/// case-insensitive occurrence either.
proof fn lemma_no_codes_no_ci(hay: Seq<char>, hay_low: Seq<u32>, q: Seq<char>, qlow: Seq<u32>)
    requires
        hay_low.len() == hay.len(),
        forall|k: int| 0 <= k < hay.len() ==> hay_low[k] == lower_code(#[trigger] hay[k]),
        qlow.len() == q.len(),
        forall|k: int| 0 <= k < q.len() ==> qlow[k] == lower_code(#[trigger] q[k]),
        forall|i: int| !(#[trigger] codes_match_at(hay_low, qlow, i)),
    ensures
        !ci_substring(hay, q),
{
    if ci_substring(hay, q) {
        let w = choose|w: int| #[trigger] ci_match_at(hay, q, w);
        assert forall|k: int| 0 <= k < qlow.len() implies hay_low[w + k] == #[trigger] qlow[k] by {
            assert(lower_code(hay[w + k]) == lower_code(q[k]));
        }
        assert(codes_match_at(hay_low, qlow, w));
        assert(false);
    }
}

fn upsert_item(items: &mut Vec<(String, String)>, key: &str, value: &str)
    ensures
        items_lookup(final(items)@, key@) == Some(value@),
{
    let ghost pre = items@;
    let mut k: usize = 0;
    let n = items.len();
    while k < n
        invariant
            pre == items@,
            n == items@.len(),
            k <= n,
            forall|m: int| 0 <= m < k ==> (#[trigger] items@[m]).0@ != key@,
        decreases n - k,
    {
        if str_eq(items[k].0.as_str(), key) {
            let _ = items.remove(k);
            proof {
                pre.remove_ensures(k as int);
            }
            items.insert(k, (key.to_owned(), value.to_owned()));
            proof {
                assert(items@ =~= pre.update(k as int, items@[k as int]));
                assert forall|m: int| 0 <= m < k implies (#[trigger] items@[m]).0@ != key@ by {
                    assert(items@[m] == pre[m]);
                }
                lemma_items_skip(items@, key@, k as int);
                assert(items@.skip(k as int)[0] == items@[k as int]);
                assert(items@[k as int].0@ == key@ && items@[k as int].1@ == value@);
            }
            return ;
        }
        k = k + 1;
    }
    let len0 = items.len();
    items.push((key.to_owned(), value.to_owned()));
    proof {
        assert forall|m: int| 0 <= m < len0 implies (#[trigger] items@[m]).0@ != key@ by {
            assert(items@[m] == pre[m]);
        }
        lemma_items_skip(items@, key@, len0 as int);
        assert(items@.skip(len0 as int)[0] == items@[len0 as int]);
    }
}

fn sort_history_desc(v: Vec<HistoryEntry>, from: Ghost<Seq<HistoryEntry>>) -> (r: Vec<
    HistoryEntry,
>)
    requires
        forall|i: int| 0 <= i < v@.len() ==> entry_from(#[trigger] v@[i], from@),
    ensures
        r@.len() == v@.len(),
        r@.to_multiset() == v@.to_multiset(),
        forall|a: int, b: int|
            0 <= a < b < r@.len() ==> (#[trigger] r@[a]).last_visit >= (
            #[trigger] r@[b]).last_visit,
        forall|i: int| 0 <= i < r@.len() ==> entry_from(#[trigger] r@[i], from@),
{
    let ghost orig = v@;
    let mut src = v;
    let mut out: Vec<HistoryEntry> = Vec::new();
    let ghost total = src@.len() + out@.len();
    proof {
        broadcast use vstd::multiset::group_multiset_axioms;

        out@.to_multiset_ensures();
        assert(out@.to_multiset().len() == 0);
        assert(out@.to_multiset().add(src@.to_multiset()) =~= src@.to_multiset());
    }
    while src.len() > 0
        invariant
            out@.len() + src@.len() == total,
            total == orig.len(),
            out@.to_multiset().add(src@.to_multiset()) == orig.to_multiset(),
            forall|a: int, b: int|
                0 <= a < b < out@.len() ==> (#[trigger] out@[a]).last_visit >= (
                #[trigger] out@[b]).last_visit,
            forall|a: int, b: int|
                0 <= a < out@.len() && 0 <= b < src@.len() ==> (#[trigger] out@[a]).last_visit
                    >= (#[trigger] src@[b]).last_visit,
            forall|i: int| 0 <= i < out@.len() ==> entry_from(#[trigger] out@[i], from@),
            forall|i: int| 0 <= i < src@.len() ==> entry_from(#[trigger] src@[i], from@),
        decreases src@.len(),
    {
        let mut best: usize = 0;
        let mut i: usize = 1;
        let n = src.len();
        while i < n
            invariant
                n == src@.len(),
                1 <= i <= n,
                best < i,
                forall|k: int| 0 <= k < i ==> (#[trigger] src@[k]).last_visit <= src@[
                    best as int].last_visit,
            decreases n - i,
        {
            if src[i].last_visit > src[best].last_visit {
                best = i;
            }
            i = i + 1;
        }
        let ghost spre = src@;
        let ghost opre = out@;
        let e = src.remove(best);
        proof {
            spre.remove_ensures(best as int);
            assert(entry_from(spre[best as int], from@));
        }
        out.push(e);
        proof {
            broadcast use vstd::multiset::group_multiset_axioms;

            spre.to_multiset_ensures();
            opre.to_multiset_ensures();
            assert(spre.contains(e));
            assert(src@.to_multiset() =~= spre.to_multiset().remove(e));
            assert(out@.to_multiset() =~= opre.to_multiset().insert(e));
            assert(out@.to_multiset().add(src@.to_multiset()) =~= opre.to_multiset().add(
                spre.to_multiset(),
            ));
            assert forall|i0: int| 0 <= i0 < src@.len() implies entry_from(
                #[trigger] src@[i0],
                from@,
            ) by {
                let j0 = if i0 < best {
                    i0
                } else {
                    i0 + 1
                };
                assert(src@[i0] == spre[j0]);
            }
            assert forall|b: int| 0 <= b < src@.len() implies out@.last().last_visit >= (
            #[trigger] src@[b]).last_visit by {
                let j0 = if b < best {
                    b
                } else {
                    b + 1
                };
                assert(src@[b] == spre[j0]);
            }
        }
    }
    proof {
        broadcast use vstd::multiset::group_multiset_axioms;

        src@.to_multiset_ensures();
        assert(src@.to_multiset().len() == 0);
        assert(out@.to_multiset() =~= out@.to_multiset().add(src@.to_multiset()));
    }
    out
}

fn sort_bookmarks_desc(v: Vec<Bookmark>, from: Ghost<Seq<Bookmark>>) -> (r: Vec<Bookmark>)
    requires
        forall|i: int| 0 <= i < v@.len() ==> bookmark_from(#[trigger] v@[i], from@),
    ensures
        r@.len() == v@.len(),
        r@.to_multiset() == v@.to_multiset(),
        forall|a: int, b: int|
            0 <= a < b < r@.len() ==> (#[trigger] r@[a]).created_at >= (
            #[trigger] r@[b]).created_at,
        forall|i: int| 0 <= i < r@.len() ==> bookmark_from(#[trigger] r@[i], from@),
{
    let ghost orig = v@;
    let mut src = v;
    let mut out: Vec<Bookmark> = Vec::new();
    let ghost total = src@.len() + out@.len();
    proof {
        broadcast use vstd::multiset::group_multiset_axioms;

        out@.to_multiset_ensures();
        assert(out@.to_multiset().len() == 0);
        assert(out@.to_multiset().add(src@.to_multiset()) =~= src@.to_multiset());
    }
    while src.len() > 0
        invariant
            out@.to_multiset().add(src@.to_multiset()) == orig.to_multiset(),
            forall|a: int, b: int|
                0 <= a < b < out@.len() ==> (#[trigger] out@[a]).created_at >= (
                #[trigger] out@[b]).created_at,
            forall|a: int, b: int|
                0 <= a < out@.len() && 0 <= b < src@.len() ==> (#[trigger] out@[a]).created_at
                    >= (#[trigger] src@[b]).created_at,
            forall|i: int| 0 <= i < out@.len() ==> bookmark_from(#[trigger] out@[i], from@),
            forall|i: int| 0 <= i < src@.len() ==> bookmark_from(#[trigger] src@[i], from@),
            out@.len() + src@.len() == total,
            total == orig.len(),
        decreases src@.len(),
    {
        let mut best: usize = 0;
        let mut i: usize = 1;
        let n = src.len();
        while i < n
            invariant
                n == src@.len(),
                1 <= i <= n,
                best < i,
                forall|k: int| 0 <= k < i ==> (#[trigger] src@[k]).created_at <= src@[
                    best as int].created_at,
            decreases n - i,
        {
            if src[i].created_at > src[best].created_at {
                best = i;
            }
            i = i + 1;
        }
        let ghost spre = src@;
        let ghost opre = out@;
        let e = src.remove(best);
        proof {
            spre.remove_ensures(best as int);
            assert(bookmark_from(spre[best as int], from@));
        }
        out.push(e);
        proof {
            broadcast use vstd::multiset::group_multiset_axioms;

            spre.to_multiset_ensures();
            opre.to_multiset_ensures();
            assert(spre.contains(e));
            assert(src@.to_multiset() =~= spre.to_multiset().remove(e));
            assert(out@.to_multiset() =~= opre.to_multiset().insert(e));
            assert(out@.to_multiset().add(src@.to_multiset()) =~= opre.to_multiset().add(
                spre.to_multiset(),
            ));
            assert forall|i0: int| 0 <= i0 < src@.len() implies bookmark_from(
                #[trigger] src@[i0],
                from@,
            ) by {
                let j0 = if i0 < best {
                    i0
                } else {
                    i0 + 1
                };
                assert(src@[i0] == spre[j0]);
            }
            assert forall|b: int| 0 <= b < src@.len() implies out@.last().created_at >= (
            #[trigger] src@[b]).created_at by {
                let j0 = if b < best {
                    b
                } else {
                    b + 1
                };
                assert(src@[b] == spre[j0]);
            }
        }
    }
    proof {
        broadcast use vstd::multiset::group_multiset_axioms;

        src@.to_multiset_ensures();
        assert(src@.to_multiset().len() == 0);
        assert(out@.to_multiset() =~= out@.to_multiset().add(src@.to_multiset()));
    }
    out
}


impl StorageEngine {
    /// A snapshot of the stored data, restricted by the options.
    pub fn export_with_options(&self, options: &ExportOptions, now: i64) -> (r: StorageExport)
        ensures
            options.export_cookies ==> r.cookies@ == self.cookies@,
            !options.export_cookies ==> r.cookies@.len() == 0,
            options.export_history ==> r.history@ == self.history@,
            !options.export_history ==> r.history@.len() == 0,
            options.export_bookmarks ==> r.bookmarks@.len() == self.bookmarks@.len()
                && r.bookmarks@.to_multiset() == self.bookmarks@.to_multiset() && (forall|
                a: int,
                b: int,
            |
                0 <= a < b < r.bookmarks@.len() ==> (#[trigger] r.bookmarks@[a]).created_at >= (
                #[trigger] r.bookmarks@[b]).created_at),
            !options.export_bookmarks ==> r.bookmarks@.len() == 0,
            options.export_local_storage ==> local_views(r.local_storage@) == local_views(
                self.local_storage@,
            ),
            !options.export_local_storage ==> r.local_storage@.len() == 0,
            r.exported_at == now,
            r.version@ == "1.0.0"@,
    {
        let cookies = if options.export_cookies {
            self.get_all_cookies()
        } else {
            Vec::new()
        };
        let history = if options.export_history {
            self.snapshot_history()
        } else {
            Vec::new()
        };
        let bookmarks = if options.export_bookmarks {
            self.get_bookmarks()
        } else {
            Vec::new()
        };
        let local_storage = if options.export_local_storage {
            clone_local(&self.local_storage)
        } else {
            Vec::new()
        };
        StorageExport {
            version: "1.0.0".to_owned(),
            exported_at: now,
            cookies,
            history,
            bookmarks,
            local_storage,
        }
    }

    /// A snapshot of everything stored, stamped with the current time.
    pub fn export_all(&self) -> (r: StorageExport)
        ensures
            r.cookies@ == self.cookies@,
            r.history@ == self.history@,
            r.bookmarks@.len() == self.bookmarks@.len(),
            local_views(r.local_storage@) == local_views(self.local_storage@),
    {
        let now_wide = crate::runtime::unix_timestamp();
        let now: i64 = (now_wide % 0x8000000000000000u64) as i64;
        self.export_with_options(&ExportOptions::all(), now)
    }

    /// Merge or replace the cookie store; every imported cookie's key is
    /// stored afterwards. Returns how many cookies were imported.
    pub fn import_cookies_list(&mut self, cookies: Vec<Cookie>, merge: bool) -> (r: usize)
        requires
            old(self).wf(),
        ensures
            final(self).wf(),
            r == cookies@.len(),
            final(self).history@ == old(self).history@,
            final(self).bookmarks@ == old(self).bookmarks@,
            final(self).local_storage@ == old(self).local_storage@,
            final(self).next_bookmark_id == old(self).next_bookmark_id,
            forall|k: int|
                0 <= k < cookies@.len() ==> cookie_key_kept(
                    #[trigger] cookies@[k],
                    final(self).cookies@,
                ),
            // the last cookie imported under each key is stored verbatim
            forall|k: int|
                0 <= k < cookies@.len() && no_later_cookie_key(cookies@, k, cookies@.len() as int)
                    ==> cookie_from(#[trigger] cookies@[k], final(self).cookies@),
    {
        if !merge {
            self.clear_cookies();
        }
        let n = cookies.len();
        let mut k: usize = 0;
        let recs = cookies;
        while k < n
            invariant
                old(self).wf(),
                self.wf(),
                n == recs@.len(),
                recs@ == cookies@,
                k <= n,
                self.history@ == old(self).history@,
                self.bookmarks@ == old(self).bookmarks@,
                self.local_storage@ == old(self).local_storage@,
                self.next_bookmark_id == old(self).next_bookmark_id,
                forall|m: int| 0 <= m < k ==> cookie_key_kept(#[trigger] recs@[m], self.cookies@),
                forall|m: int|
                    0 <= m < k && no_later_cookie_key(recs@, m, k as int) ==> cookie_from(
                        #[trigger] recs@[m],
                        self.cookies@,
                    ),
            decreases n - k,
        {
            let ghost pre = self.cookies@;
            let c = recs[k].duplicate();
            self.set_cookie(c);
            proof {
                let j = choose|j: int|
                    0 <= j < self.cookies@.len() && #[trigger] self.cookies@[j]
                        == recs@[k as int];
                assert(self.cookies@[j].same_cookie_key(recs@[k as int]));
                assert(cookie_key_kept(recs@[k as int], self.cookies@));
                assert(cookie_from(recs@[k as int], self.cookies@));
                assert forall|m: int| 0 <= m < k + 1 implies cookie_key_kept(
                    #[trigger] recs@[m],
                    self.cookies@,
                ) by {
                    if m < k {
                        let i0 = choose|i0: int|
                            0 <= i0 < pre.len() && (#[trigger] pre[i0]).same_cookie_key(recs@[m]);
                        assert(pre[i0].same_cookie_key(recs@[m]));
                        assert(cookie_key_kept(pre[i0], self.cookies@));
                        let i1 = choose|i1: int|
                            0 <= i1 < self.cookies@.len() && (#[trigger] self.cookies@[i1]).same_cookie_key(
                                pre[i0],
                            );
                        assert(self.cookies@[i1].same_cookie_key(recs@[m]));
                        assert(cookie_key_kept(recs@[m], self.cookies@));
                    }
                }
                assert forall|m: int|
                    0 <= m < k + 1 && no_later_cookie_key(recs@, m, k as int + 1) implies
                    cookie_from(#[trigger] recs@[m], self.cookies@) by {
                    if m == k {
                        assert(cookie_from(recs@[k as int], self.cookies@));
                    } else {
                        assert(!recs@[k as int].same_cookie_key(recs@[m]));
                        assert(no_later_cookie_key(recs@, m, k as int));
                        assert(cookie_from(recs@[m], pre));
                        let i0 = choose|i0: int|
                            0 <= i0 < pre.len() && #[trigger] pre[i0] == recs@[m];
                        assert(!pre[i0].same_cookie_key(c));
                        assert(cookie_from(pre[i0], self.cookies@));
                    }
                }
            }
            k = k + 1;
        }
        proof {
            assert forall|k2: int| 0 <= k2 < cookies@.len() implies cookie_key_kept(
                #[trigger] cookies@[k2],
                self.cookies@,
            ) by {
                assert(recs@[k2] == cookies@[k2]);
                assert(cookie_key_kept(recs@[k2], self.cookies@));
            }
            assert forall|k2: int|
                0 <= k2 < cookies@.len() && no_later_cookie_key(cookies@, k2, cookies@.len() as int)
                    implies cookie_from(#[trigger] cookies@[k2], self.cookies@) by {
                assert(recs@[k2] == cookies@[k2]);
                assert forall|j: int| k2 < j < recs@.len() implies !(#[trigger] recs@[j]).same_cookie_key(
                    recs@[k2],
                ) by {
                    assert(recs@[j] == cookies@[j]);
                }
                assert(no_later_cookie_key(recs@, k2, recs@.len() as int));
                assert(cookie_from(recs@[k2], self.cookies@));
            }
        }
        n
    }

    /// Merge or replace the history store. A merged entry of a known URL
    /// adds its visit count and keeps the newest visit and title. Returns
    /// how many entries were imported.
    pub fn import_history_list(&mut self, entries: Vec<HistoryEntry>, merge: bool) -> (r: usize)
        requires
            old(self).wf(),
        ensures
            final(self).wf(),
            r == entries@.len(),
            final(self).cookies@ == old(self).cookies@,
            final(self).bookmarks@ == old(self).bookmarks@,
            final(self).local_storage@ == old(self).local_storage@,
            final(self).next_bookmark_id == old(self).next_bookmark_id,
            forall|k: int|
                0 <= k < entries@.len() ==> history_has_url(
                    final(self).history@,
                    (#[trigger] entries@[k]).url@,
                ),
    {
        if !merge {
            self.clear_history();
        }
        let n = entries.len();
        let mut k: usize = 0;
        let mut entries = entries;
        while k < n
            invariant
                old(self).wf(),
                self.wf(),
                n == entries@.len(),
                k <= n,
                self.cookies@ == old(self).cookies@,
                self.bookmarks@ == old(self).bookmarks@,
                self.local_storage@ == old(self).local_storage@,
                self.next_bookmark_id == old(self).next_bookmark_id,
                forall|m: int|
                    0 <= m < k ==> history_has_url(self.history@, (#[trigger] entries@[m]).url@),
            decreases n - k,
        {
            let ghost pre = self.history@;
            let e = entries[k].duplicate();
            self.import_one_history(e);
            proof {
                assert forall|m: int| 0 <= m < k + 1 implies history_has_url(
                    self.history@,
                    (#[trigger] entries@[m]).url@,
                ) by {
                    if m < k {
                        let i0 = choose|i0: int|
                            0 <= i0 < pre.len() && (#[trigger] pre[i0]).url@ == entries@[m].url@;
                        assert(history_has_url(self.history@, pre[i0].url@));
                    }
                }
            }
            k = k + 1;
        }
        n
    }

    /// Take one history entry in: merge into a known URL, else store it
    /// under a fresh id.
    fn import_one_history(&mut self, e: HistoryEntry)
        requires
            old(self).wf(),
        ensures
            final(self).wf(),
            history_has_url(final(self).history@, e.url@),
            final(self).cookies@ == old(self).cookies@,
            final(self).bookmarks@ == old(self).bookmarks@,
            final(self).local_storage@ == old(self).local_storage@,
            final(self).next_bookmark_id == old(self).next_bookmark_id,
            forall|u: Seq<char>|
                history_has_url(old(self).history@, u) ==> history_has_url(
                    final(self).history@,
                    u,
                ),
    {
        let ghost pre = self.history@;
        match self.find_history(e.url.as_str()) {
            Some(i) => {
                let ex = self.history.remove(i);
                proof {
                    pre.remove_ensures(i as int);
                }
                let combined = if e.visit_count >= 0 {
                    if ex.visit_count <= 0x7FFFFFFFi32 - e.visit_count {
                        ex.visit_count + e.visit_count
                    } else {
                        ex.visit_count
                    }
                } else {
                    ex.visit_count
                };
                let newer = e.last_visit > ex.last_visit;
                let new_e = HistoryEntry {
                    id: ex.id,
                    url: ex.url,
                    title: if newer {
                        e.title
                    } else {
                        ex.title
                    },
                    visit_count: combined,
                    last_visit: if newer {
                        e.last_visit
                    } else {
                        ex.last_visit
                    },
                };
                self.history.insert(i, new_e);
                proof {
                    assert(self.history@ =~= pre.update(i as int, self.history@[i as int]));
                    assert(self.history@[i as int].url@ == e.url@);
                    assert forall|a: int, b: int|
                        0 <= a < b < self.history@.len() implies (#[trigger] self.history@[a]).url@
                        != (#[trigger] self.history@[b]).url@ by {
                        assert(self.history@[a].url@ == pre[a].url@);
                        assert(self.history@[b].url@ == pre[b].url@);
                    }
                    assert forall|u: Seq<char>|
                        history_has_url(pre, u) implies history_has_url(self.history@, u) by {
                        let j = choose|j: int| 0 <= j < pre.len() && (#[trigger] pre[j]).url@ == u;
                        assert(self.history@[j].url@ == u);
                    }
                }
            },
            None => {
                let id = self.next_history_id;
                if id < 0x7FFFFFFFFFFFFFFEi64 {
                    self.next_history_id = id + 1;
                }
                let new_e = HistoryEntry {
                    id,
                    url: e.url,
                    title: e.title,
                    visit_count: e.visit_count,
                    last_visit: e.last_visit,
                };
                self.history.push(new_e);
                proof {
                    assert(self.history@.last().url@ == e.url@);
                    assert forall|a: int, b: int|
                        0 <= a < b < self.history@.len() implies (#[trigger] self.history@[a]).url@
                        != (#[trigger] self.history@[b]).url@ by {
                        if b < self.history@.len() - 1 {
                            assert(self.history@[a] == pre[a] && self.history@[b] == pre[b]);
                        } else {
                            assert(self.history@[a] == pre[a]);
                        }
                    }
                    assert forall|u: Seq<char>|
                        history_has_url(pre, u) implies history_has_url(self.history@, u) by {
                        let j = choose|j: int| 0 <= j < pre.len() && (#[trigger] pre[j]).url@ == u;
                        assert(self.history@[j].url@ == u);
                    }
                }
            },
        }
    }

    /// Merge or replace the bookmark store; a merged bookmark of a known
    /// URL is skipped. Returns how many bookmarks were added.
    pub fn import_bookmarks_list(&mut self, items: Vec<Bookmark>, merge: bool) -> (r: usize)
        requires
            old(self).wf(),
        ensures
            final(self).wf(),
            r <= items@.len(),
            final(self).cookies@ == old(self).cookies@,
            final(self).history@ == old(self).history@,
            final(self).local_storage@ == old(self).local_storage@,
            // replacing: the store is cleared first and every item is taken
            // over in order under fresh sequential ids
            !merge && old(self).next_bookmark_id + items@.len() < 0x7FFFFFFFFFFFFFFEi64 ==> {
                &&& r == items@.len()
                &&& final(self).bookmarks@.len() == items@.len()
                &&& (forall|m: int|
                    0 <= m < items@.len() ==> {
                        &&& (#[trigger] final(self).bookmarks@[m]).url@ == items@[m].url@
                        &&& final(self).bookmarks@[m].title@ == items@[m].title@
                        &&& final(self).bookmarks@[m].created_at == items@[m].created_at
                        &&& final(self).bookmarks@[m].id == old(self).next_bookmark_id + m
                    })
                &&& final(self).next_bookmark_id == old(self).next_bookmark_id + items@.len()
            },
            // merging: existing bookmarks are kept, an item whose URL is
            // already present (or occurred earlier in the batch) is skipped,
            // and the count reports exactly the insertions
            merge && old(self).next_bookmark_id + items@.len() < 0x7FFFFFFFFFFFFFFEi64 ==> {
                &&& (forall|i: int|
                    0 <= i < old(self).bookmarks@.len() ==> final(self).bookmarks@[i] == (
                    #[trigger] old(self).bookmarks@[i]))
                &&& final(self).bookmarks@.len() == old(self).bookmarks@.len() + r
                &&& r == bm_added_count(old(self).bookmarks@, items@, items@.len() as int)
                &&& (forall|m: int|
                    old(self).bookmarks@.len() <= m < final(self).bookmarks@.len() ==> (
                    #[trigger] final(self).bookmarks@[m]).id == old(self).next_bookmark_id + (m
                        - old(self).bookmarks@.len()))
                &&& (forall|u: Seq<char>|
                    #[trigger] bm_url_in(final(self).bookmarks@, u) <==> bm_url_in(
                        old(self).bookmarks@,
                        u,
                    ) || url_in_prefix(items@, items@.len() as int, u))
            },
    {
        let ghost room = old(self).next_bookmark_id + items@.len() < 0x7FFFFFFFFFFFFFFEi64;
        if !merge {
            self.bookmarks.clear();
        }
        let n = items.len();
        let mut k: usize = 0;
        let mut added: usize = 0;
        let mut items = items;
        while k < n
            invariant
                old(self).wf(),
                self.wf(),
                room == (old(self).next_bookmark_id + items@.len()
                    < 0x7FFFFFFFFFFFFFFEi64),
                n == items@.len(),
                k <= n,
                added <= k,
                self.cookies@ == old(self).cookies@,
                self.history@ == old(self).history@,
                self.local_storage@ == old(self).local_storage@,
                room ==> self.next_bookmark_id == old(self).next_bookmark_id + added,
                !merge && room ==> {
                    &&& added == k
                    &&& self.bookmarks@.len() == k
                    &&& (forall|m: int|
                        0 <= m < k ==> {
                            &&& (#[trigger] self.bookmarks@[m]).url@ == items@[m].url@
                            &&& self.bookmarks@[m].title@ == items@[m].title@
                            &&& self.bookmarks@[m].created_at == items@[m].created_at
                            &&& self.bookmarks@[m].id == old(self).next_bookmark_id + m
                        })
                },
                merge && room ==> {
                    &&& (forall|i: int|
                        0 <= i < old(self).bookmarks@.len() ==> self.bookmarks@[i] == (
                        #[trigger] old(self).bookmarks@[i]))
                    &&& self.bookmarks@.len() == old(self).bookmarks@.len() + added
                    &&& added == bm_added_count(old(self).bookmarks@, items@, k as int)
                    &&& (forall|m: int|
                        old(self).bookmarks@.len() <= m < self.bookmarks@.len() ==> (
                        #[trigger] self.bookmarks@[m]).id == old(self).next_bookmark_id + (m
                            - old(self).bookmarks@.len()))
                    &&& (forall|u: Seq<char>|
                        #[trigger] bm_url_in(self.bookmarks@, u) <==> bm_url_in(
                            old(self).bookmarks@,
                            u,
                        ) || url_in_prefix(items@, k as int, u))
                },
            decreases n - k,
        {
            let ghost bpre = self.bookmarks@;
            let b = items[k].duplicate();
            let dup = merge && self.has_bookmark_url(b.url.as_str());
            proof {
                if merge {
                    assert(dup == bm_url_in(self.bookmarks@, items@[k as int].url@));
                }
                if merge && room {
                    assert(dup == (bm_url_in(old(self).bookmarks@, items@[k as int].url@)
                        || url_in_prefix(items@, k as int, items@[k as int].url@)));
                    assert(dup == bm_skipped(old(self).bookmarks@, items@, k as int));
                }
            }
            if !dup {
                let _ = self.add_bookmark(
                    b.url.as_str(),
                    b.title.as_str(),
                    match &b.folder {
                        Some(f) => Some(f.as_str()),
                        None => None,
                    },
                    b.created_at,
                );
                added = added + 1;
            }
            proof {
                if merge && room {
                    assert forall|u: Seq<char>|
                        #[trigger] bm_url_in(self.bookmarks@, u) <==> bm_url_in(
                            old(self).bookmarks@,
                            u,
                        ) || url_in_prefix(items@, k as int + 1, u) by {
                        if dup {
                            if url_in_prefix(items@, k as int + 1, u) && !url_in_prefix(
                                items@,
                                k as int,
                                u,
                            ) {
                                let j = choose|j: int|
                                    0 <= j < k + 1 && (#[trigger] items@[j]).url@ == u;
                                assert(j == k);
                                assert(bm_url_in(self.bookmarks@, u));
                            }
                        } else {
                            if bm_url_in(self.bookmarks@, u) {
                                let i0 = choose|i0: int|
                                    0 <= i0 < self.bookmarks@.len() && (
                                    #[trigger] self.bookmarks@[i0]).url@ == u;
                                if i0 < self.bookmarks@.len() - 1 {
                                    assert(self.bookmarks@[i0] == bpre[i0]);
                                    assert(bm_url_in(bpre, u));
                                } else {
                                    assert(u == items@[k as int].url@);
                                    assert(url_in_prefix(items@, k as int + 1, u));
                                }
                            }
                            if bm_url_in(old(self).bookmarks@, u) || url_in_prefix(
                                items@,
                                k as int + 1,
                                u,
                            ) {
                                if bm_url_in(bpre, u) || (url_in_prefix(items@, k as int, u)) {
                                    if bm_url_in(bpre, u) {
                                        let i0 = choose|i0: int|
                                            0 <= i0 < bpre.len() && (#[trigger] bpre[i0]).url@
                                                == u;
                                        assert(self.bookmarks@[i0] == bpre[i0]);
                                        assert(bm_url_in(self.bookmarks@, u));
                                    }
                                } else {
                                    if bm_url_in(old(self).bookmarks@, u) {
                                    } else {
                                        let j = choose|j: int|
                                            0 <= j < k + 1 && (#[trigger] items@[j]).url@ == u;
                                        assert(j == k);
                                        assert(self.bookmarks@.last().url@
                                            == items@[k as int].url@);
                                        assert(bm_url_in(self.bookmarks@, u));
                                    }
                                }
                            }
                        }
                    }
                }
                if merge && room && !dup {
                    assert forall|m: int|
                        old(self).bookmarks@.len() <= m < self.bookmarks@.len() implies (
                    #[trigger] self.bookmarks@[m]).id == old(self).next_bookmark_id + (m - old(
                        self,
                    ).bookmarks@.len()) by {
                        if m < self.bookmarks@.len() - 1 {
                            assert(self.bookmarks@[m] == bpre[m]);
                        }
                    }
                }
                if !merge && room && !dup {
                    assert forall|m: int| 0 <= m < k + 1 implies {
                        &&& (#[trigger] self.bookmarks@[m]).url@ == items@[m].url@
                        &&& self.bookmarks@[m].title@ == items@[m].title@
                        &&& self.bookmarks@[m].created_at == items@[m].created_at
                        &&& self.bookmarks@[m].id == old(self).next_bookmark_id + m
                    } by {
                        if m < k {
                            assert(self.bookmarks@[m] == bpre[m]);
                        }
                    }
                }
            }
            k = k + 1;
        }
        added
    }

    /// Whether some stored bookmark carries the URL.
    pub fn has_bookmark_url(&self, url: &str) -> (r: bool)
        ensures
            r == exists|i: int|
                0 <= i < self.bookmarks@.len() && (#[trigger] self.bookmarks@[i]).url@ == url@,
    {
        let mut i: usize = 0;
        let n = self.bookmarks.len();
        while i < n
            invariant
                n == self.bookmarks@.len(),
                i <= n,
                forall|k: int| 0 <= k < i ==> (#[trigger] self.bookmarks@[k]).url@ != url@,
            decreases n - i,
        {
            if str_eq(self.bookmarks[i].url.as_str(), url) {
                return true;
            }
            i = i + 1;
        }
        false
    }

    /// Merge or replace the local storage; returns (origins stored after,
    /// items imported).
    pub fn import_local_list(
        &mut self,
        data: Vec<(String, Vec<(String, String)>)>,
        merge: bool,
    ) -> (r: (usize, usize))
        requires
            old(self).wf(),
        ensures
            final(self).wf(),
            r.0 == final(self).local_storage@.len(),
            r.1 == (if items_total(data@) <= usize::MAX {
                items_total(data@)
            } else {
                usize::MAX as int
            }),
            final(self).cookies@ == old(self).cookies@,
            final(self).history@ == old(self).history@,
            final(self).bookmarks@ == old(self).bookmarks@,
    {
        if !merge {
            self.clear_all_local_storage();
        }
        let n = data.len();
        let mut k: usize = 0;
        let mut items_count: usize = 0;
        let mut data = data;
        while k < n
            invariant
                old(self).wf(),
                self.wf(),
                n == data@.len(),
                k <= n,
                items_count as int == (if items_total(data@.subrange(0, k as int)) <= usize::MAX {
                    items_total(data@.subrange(0, k as int))
                } else {
                    usize::MAX as int
                }),
                self.cookies@ == old(self).cookies@,
                self.history@ == old(self).history@,
                self.bookmarks@ == old(self).bookmarks@,
            decreases n - k,
        {
            let pair = &data[k];
            let m = pair.1.len();
            proof {
                let s1 = data@.subrange(0, k as int + 1);
                assert(s1.drop_last() =~= data@.subrange(0, k as int));
                assert(s1.last() == data@[k as int]);
                lemma_items_total_nonneg(data@.subrange(0, k as int));
            }
            if items_count <= usize::MAX - m {
                items_count = items_count + m;
            } else {
                items_count = usize::MAX;
            }
            let mut j: usize = 0;
            let origin = pair.0.clone();
            while j < m
                invariant
                    old(self).wf(),
                    self.wf(),
                    k < n,
                    n == data@.len(),
                    m == data@[k as int].1@.len(),
                    j <= m,
                    origin@ == data@[k as int].0@,
                    self.cookies@ == old(self).cookies@,
                    self.history@ == old(self).history@,
                    self.bookmarks@ == old(self).bookmarks@,
                decreases m - j,
            {
                let item = &data[k].1[j];
                let key = item.0.clone();
                let value = item.1.clone();
                self.set_local_storage(origin.as_str(), key.as_str(), value.as_str());
                j = j + 1;
            }
            k = k + 1;
        }
        proof {
            assert(data@.subrange(0, n as int) =~= data@);
        }
        (self.local_storage.len(), items_count)
    }

    /// Take a snapshot in, restricted by the options, and report what was
    /// imported.
    pub fn import_with_options(&mut self, data: StorageExport, options: &ImportOptions) -> (r:
        ImportExportStats)
        requires
            old(self).wf(),
        ensures
            final(self).wf(),
            options.import_cookies ==> r.cookies_count == data.cookies@.len(),
            options.import_history ==> r.history_count == data.history@.len(),
            options.import_bookmarks ==> r.bookmarks_count == data.bookmarks@.len(),
            !options.import_cookies ==> r.cookies_count == 0 && final(self).cookies@ == old(self).cookies@,
            !options.import_history ==> r.history_count == 0,
            !options.import_bookmarks ==> r.bookmarks_count == 0,
            options.import_local_storage ==> r.local_storage_items == (
            if items_total(data.local_storage@) <= usize::MAX {
                items_total(data.local_storage@)
            } else {
                usize::MAX as int
            }),
            !options.import_local_storage ==> r.local_storage_items == 0 && final(self).local_storage@ == old(self).local_storage@,
            !options.import_bookmarks ==> final(self).bookmarks@ == old(self).bookmarks@,
            // the bookmark store after an import, replacing or merging
            options.import_bookmarks && !options.merge && old(self).next_bookmark_id
                + data.bookmarks@.len() < 0x7FFFFFFFFFFFFFFEi64 ==> final(self).bookmarks@.len()
                == data.bookmarks@.len(),
            options.import_bookmarks && options.merge && old(self).next_bookmark_id
                + data.bookmarks@.len() < 0x7FFFFFFFFFFFFFFEi64 ==> {
                &&& (forall|i: int|
                    0 <= i < old(self).bookmarks@.len() ==> final(self).bookmarks@[i] == (
                    #[trigger] old(self).bookmarks@[i]))
                &&& final(self).bookmarks@.len() == old(self).bookmarks@.len() + bm_added_count(
                    old(self).bookmarks@,
                    data.bookmarks@,
                    data.bookmarks@.len() as int,
                )
            },
            // imported cookies are stored: keys present, last write verbatim
            options.import_cookies ==> (forall|k: int|
                0 <= k < data.cookies@.len() ==> cookie_key_kept(
                    #[trigger] data.cookies@[k],
                    final(self).cookies@,
                )) && (forall|k: int|
                0 <= k < data.cookies@.len() && no_later_cookie_key(
                    data.cookies@,
                    k,
                    data.cookies@.len() as int,
                ) ==> cookie_from(#[trigger] data.cookies@[k], final(self).cookies@)),
            // imported history URLs are present afterwards
            options.import_history ==> forall|k: int|
                0 <= k < data.history@.len() ==> history_has_url(
                    final(self).history@,
                    (#[trigger] data.history@[k]).url@,
                ),
    {
        let mut stats = ImportExportStats {
            cookies_count: 0,
            history_count: 0,
            bookmarks_count: 0,
            local_storage_origins: 0,
            local_storage_items: 0,
        };
        let StorageExport { version: _, exported_at: _, cookies, history, bookmarks, local_storage } =
            data;
        if options.import_cookies {
            stats.cookies_count = self.import_cookies_list(cookies, options.merge);
        }
        if options.import_history {
            stats.history_count = self.import_history_list(history, options.merge);
        }
        if options.import_bookmarks {
            let nb = bookmarks.len();
            let _ = self.import_bookmarks_list(bookmarks, options.merge);
            stats.bookmarks_count = nb;
        }
        if options.import_local_storage {
            let counts = self.import_local_list(local_storage, options.merge);
            stats.local_storage_origins = counts.0;
            stats.local_storage_items = counts.1;
        }
        stats
    }

    /// Take a full snapshot in, merging it with what is stored.
    pub fn import_all(&mut self, data: StorageExport) -> (r: ImportExportStats)
        requires
            old(self).wf(),
        ensures
            final(self).wf(),
            r.cookies_count == data.cookies@.len(),
            r.history_count == data.history@.len(),
            r.bookmarks_count == data.bookmarks@.len(),
            r.local_storage_items == (if items_total(data.local_storage@) <= usize::MAX {
                items_total(data.local_storage@)
            } else {
                usize::MAX as int
            }),
            // merging: existing bookmarks kept, new URLs appended
            old(self).next_bookmark_id + data.bookmarks@.len() < 0x7FFFFFFFFFFFFFFEi64 ==> {
                &&& (forall|i: int|
                    0 <= i < old(self).bookmarks@.len() ==> final(self).bookmarks@[i] == (
                    #[trigger] old(self).bookmarks@[i]))
                &&& final(self).bookmarks@.len() == old(self).bookmarks@.len() + bm_added_count(
                    old(self).bookmarks@,
                    data.bookmarks@,
                    data.bookmarks@.len() as int,
                )
            },
            // every imported cookie key is stored, the last write verbatim
            forall|k: int|
                0 <= k < data.cookies@.len() ==> cookie_key_kept(
                    #[trigger] data.cookies@[k],
                    final(self).cookies@,
                ),
            forall|k: int|
                0 <= k < data.cookies@.len() && no_later_cookie_key(
                    data.cookies@,
                    k,
                    data.cookies@.len() as int,
                ) ==> cookie_from(#[trigger] data.cookies@[k], final(self).cookies@),
            // every imported history URL is present afterwards
            forall|k: int|
                0 <= k < data.history@.len() ==> history_has_url(
                    final(self).history@,
                    (#[trigger] data.history@[k]).url@,
                ),
    {
        self.import_with_options(data, &ImportOptions::all())
    }
}

/// Whether some stored bookmark carries the URL.
pub open spec fn bm_url_in(s: Seq<Bookmark>, url: Seq<char>) -> bool {
    exists|i: int| 0 <= i < s.len() && (#[trigger] s[i]).url@ == url
}

/// Whether one of the first `k` items carries the URL.
pub open spec fn url_in_prefix(items: Seq<Bookmark>, k: int, url: Seq<char>) -> bool {
    exists|j: int| 0 <= j < k && (#[trigger] items[j]).url@ == url
}

/// Whether a merge import skips item `k`: its URL was already stored or
/// occurred earlier in the batch.
pub open spec fn bm_skipped(base: Seq<Bookmark>, items: Seq<Bookmark>, k: int) -> bool {
    bm_url_in(base, items[k].url@) || url_in_prefix(items, k, items[k].url@)
}

/// How many of the first `n` items a merge import inserts.
pub open spec fn bm_added_count(base: Seq<Bookmark>, items: Seq<Bookmark>, n: int) -> int
    decreases n,
{
    if n <= 0 {
        0
    } else {
        bm_added_count(base, items, n - 1) + if bm_skipped(base, items, n - 1) {
            0int
        } else {
            1int
        }
    }
}

/// Whether no later record in the batch shares the key of record `m`.
pub open spec fn no_later_cookie_key(items: Seq<Cookie>, m: int, k: int) -> bool {
    forall|j: int| m < j < k ==> !(#[trigger] items[j]).same_cookie_key(items[m])
}

/// Whether `s` still has a cookie with `c`'s key.
pub open spec fn cookie_key_kept(c: Cookie, s: Seq<Cookie>) -> bool {
    exists|i: int| 0 <= i < s.len() && (#[trigger] s[i]).same_cookie_key(c)
}

/// The origin names and item views of a local-storage listing.
pub open spec fn local_views(s: Seq<(String, Vec<(String, String)>)>) -> Seq<
    (Seq<char>, Seq<(String, String)>),
> {
    s.map_values(|p: (String, Vec<(String, String)>)| (p.0@, p.1@))
}

fn clone_local(v: &Vec<(String, Vec<(String, String)>)>) -> (r: Vec<
    (String, Vec<(String, String)>),
>)
    ensures
        local_views(r@) == local_views(v@),
{
    let mut out: Vec<(String, Vec<(String, String)>)> = Vec::new();
    let mut i: usize = 0;
    let n = v.len();
    while i < n
        invariant
            n == v@.len(),
            i <= n,
            out@.len() == i,
            forall|a: int|
                0 <= a < i ==> (#[trigger] out@[a]).0@ == v@[a].0@ && out@[a].1@ == v@[a].1@,
        decreases n - i,
    {
        let pair = &v[i];
        let mut items: Vec<(String, String)> = Vec::new();
        let m = pair.1.len();
        let mut j: usize = 0;
        while j < m
            invariant
                m == pair.1@.len(),
                j <= m,
                items@ == pair.1@.subrange(0, j as int),
            decreases m - j,
        {
            items.push((pair.1[j].0.clone(), pair.1[j].1.clone()));
            proof {
                assert(items@ =~= pair.1@.subrange(0, j as int + 1));
            }
            j = j + 1;
        }
        proof {
            assert(items@ =~= pair.1@);
        }
        out.push((pair.0.clone(), items));
        i = i + 1;
    }
    proof {
        assert(local_views(out@) =~= local_views(v@));
    }
    out
}

} // verus!
