//! Where to look for a file, and how often.

use vstd::prelude::*;
use crate::text;

verus! {

/// Where the newest Mihomo release is described.
pub const MIHOMO_LATEST_RELEASE_API: &'static str =
    "https://api.github.com/repos/MetaCubeX/mihomo/releases/latest";

/// Where the web interface can be had, the preferred one first.
pub const WEB_UI_TARBALL_URLS: [&'static str; 2] = [
    "https://codeload.github.com/MetaCubeX/Yacd-meta/tar.gz/refs/heads/gh-pages",
    "https://codeload.github.com/MetaCubeX/metacubexd/tar.gz/refs/heads/gh-pages",
];

/// Where the database of addresses by country can be had.
pub const GEOIP_METADB_URL: &'static str =
    "https://github.com/MetaCubeX/meta-rules-dat/releases/download/latest/geoip.metadb";

/// How often one address is tried.
pub const ATTEMPTS_PER_URL: usize = 3;

/// How many seconds pass after an attempt that failed.
pub const RETRY_DELAY_SECONDS: u64 = 2;

/// Whether `url` is an address at GitHub, for which there are mirrors.
pub open spec fn is_mirrored(url: Seq<char>) -> bool {
    "https://github.com/"@.is_prefix_of(url) || "https://codeload.github.com/"@.is_prefix_of(url)
}

/// The addresses at which the file at `url` can be had, in the order in which they are tried:
/// the address itself, and behind it those of the mirrors if it has any.
pub open spec fn candidates(url: Seq<char>) -> Seq<Seq<char>> {
    if is_mirrored(url) {
        seq![url, "https://gh-proxy.com/"@ + url, "https://ghproxy.net/"@ + url]
    } else {
        seq![url]
    }
}

/// What the texts in a row hold.
pub open spec fn texts(strings: Seq<String>) -> Seq<Seq<char>> {
    Seq::new(strings.len(), |i: int| strings[i]@)
}

/// The addresses at which the file at `url` can be had, in the order in which they are tried.
pub fn download_candidates(url: &str) -> (r: Vec<String>)
    ensures
        texts(r@) == candidates(url@),
{
    let mut urls: Vec<String> = Vec::new();
    urls.push(url.to_owned());
    if text::strip_prefix(url, "https://github.com/").is_some() || text::strip_prefix(
        url,
        "https://codeload.github.com/",
    ).is_some() {
        urls.push("https://gh-proxy.com/".to_owned().concat(url));
        urls.push("https://ghproxy.net/".to_owned().concat(url));
    }
    assert(texts(urls@) =~= candidates(url@));
    urls
}

/// There is always an address to try: the file's own comes first, and each of the others leads
/// to it.
pub proof fn own_address_comes_first(url: Seq<char>)
    ensures
        candidates(url).len() > 0,
        candidates(url)[0] == url,
        forall|i: int|
            0 <= i < candidates(url).len() ==> url.is_suffix_of(#[trigger] candidates(url)[i]),
{
}

/// Attempts to fetch something from one of several addresses: each is tried several times
/// before the next, until one attempt succeeds or none is left.
pub struct Attempts {
    urls: Vec<String>,
    per_url: usize,
    delay: u64,
    current: usize,
    tries: usize,
}

/// What to do next about a fetch.
pub enum FetchStep {
    /// Try this address.
    Fetch(String),
    /// Give up: every attempt failed.
    GiveUp,
}

/// The number of the address that the attempt after `failures` failures goes to, where each
/// address is tried `per_url` times.
pub open spec fn url_of_attempt(failures: int, per_url: int) -> int {
    failures / per_url
}

impl Attempts {
    /// The addresses, in the order in which they are tried.
    pub closed spec fn urls(self) -> Seq<Seq<char>> {
        texts(self.urls@)
    }

    /// How often each address is tried.
    pub closed spec fn per_url(self) -> int {
        self.per_url as int
    }

    /// How many seconds pass after an attempt that failed.
    pub closed spec fn pause(self) -> int {
        self.delay as int
    }

    /// How many attempts have failed.
    pub closed spec fn failures(self) -> int {
        self.current * self.per_url + self.tries
    }

    /// How many attempts there are in all.
    pub open spec fn total(self) -> int {
        self.urls().len() * self.per_url()
    }

    /// Whether the counts are in range.
    pub closed spec fn wf(self) -> bool {
        &&& 0 < self.per_url
        &&& self.current <= self.urls@.len()
        &&& self.tries < self.per_url
        &&& self.current == self.urls@.len() ==> self.tries == 0
    }

    /// Where the count of failures stands.
    proof fn lemma_count(self)
        requires
            self.wf(),
        ensures
            url_of_attempt(self.failures(), self.per_url()) == self.current,
            self.failures() < self.total() <==> self.current < self.urls@.len(),
            0 <= self.failures() <= self.total(),
    {
        let c = self.per_url as int;
        let n = self.urls@.len() as int;
        let i = self.current as int;
        vstd::arithmetic::div_mod::lemma_fundamental_div_mod_converse(
            self.failures(),
            c,
            i,
            self.tries as int,
        );
        assert(0 <= i * c) by (nonlinear_arith)
            requires
                0 <= i,
                0 < c,
        ;
        if i < n {
            assert(i * c + c <= n * c) by (nonlinear_arith)
                requires
                    i + 1 <= n,
                    0 < c,
            ;
        }
    }

    /// Attempts to download the file at `url`: from the address itself and from its mirrors.
    pub fn download(url: &str) -> (r: Attempts)
        ensures
            r.wf(),
            r.urls() == candidates(url@),
            r.per_url() == ATTEMPTS_PER_URL,
            r.pause() == RETRY_DELAY_SECONDS,
            r.failures() == 0,
    {
        Attempts {
            urls: download_candidates(url),
            per_url: ATTEMPTS_PER_URL,
            delay: RETRY_DELAY_SECONDS,
            current: 0,
            tries: 0,
        }
    }

    /// Attempts to download the web interface: one for each place where it can be had.
    pub fn web_ui() -> (r: Attempts)
        ensures
            r.wf(),
            r.urls() == seq![WEB_UI_TARBALL_URLS@[0]@, WEB_UI_TARBALL_URLS@[1]@],
            r.per_url() == 1,
            r.pause() == 0,
            r.failures() == 0,
    {
        let mut urls: Vec<String> = Vec::new();
        urls.push(WEB_UI_TARBALL_URLS[0].to_owned());
        urls.push(WEB_UI_TARBALL_URLS[1].to_owned());
        assert(texts(urls@) =~= seq![WEB_UI_TARBALL_URLS@[0]@, WEB_UI_TARBALL_URLS@[1]@]);
        Attempts { urls, per_url: 1, delay: 0, current: 0, tries: 0 }
    }

    /// What to do next.
    pub fn step(&self) -> (r: FetchStep)
        requires
            self.wf(),
        ensures
            match r {
                FetchStep::Fetch(url) => {
                    &&& self.failures() < self.total()
                    &&& url@ == self.urls()[url_of_attempt(self.failures(), self.per_url())]
                },
                FetchStep::GiveUp => self.failures() == self.total(),
            },
    {
        proof {
            self.lemma_count();
        }
        if self.current < self.urls.len() {
            FetchStep::Fetch(self.urls[self.current].clone())
        } else {
            FetchStep::GiveUp
        }
    }

    /// Takes note that an attempt failed.
    pub fn fail(&mut self)
        requires
            old(self).wf(),
        ensures
            final(self).wf(),
            final(self).urls() == old(self).urls(),
            final(self).per_url() == old(self).per_url(),
            final(self).pause() == old(self).pause(),
            final(self).failures() == if old(self).failures() < old(self).total() {
                old(self).failures() + 1
            } else {
                old(self).failures()
            },
    {
        proof {
            self.lemma_count();
        }
        if self.current < self.urls.len() {
            if self.tries + 1 < self.per_url {
                self.tries = self.tries + 1;
            } else {
                proof {
                    let i = self.current as int;
                    let c = self.per_url as int;
                    assert((i + 1) * c == i * c + c) by (nonlinear_arith);
                }
                self.current = self.current + 1;
                self.tries = 0;
            }
        }
    }

    /// How many seconds to let pass after an attempt that failed.
    pub fn delay_seconds(&self) -> (r: u64)
        ensures
            r == self.pause(),
    {
        self.delay
    }
}

/// Each address is tried as often as it should be, one after the other: address `i` is what the
/// attempts from `i * per_url` up to the next multiple go to.
pub proof fn addresses_take_turns(failures: int, per_url: int, i: int)
    requires
        0 < per_url,
        0 <= failures,
    ensures
        url_of_attempt(failures, per_url) == i <==> i * per_url <= failures < (i + 1) * per_url,
{
    vstd::arithmetic::div_mod::lemma_fundamental_div_mod(failures, per_url);
    assert((i + 1) * per_url == i * per_url + per_url) by (nonlinear_arith);
    if i * per_url <= failures < (i + 1) * per_url {
        vstd::arithmetic::div_mod::lemma_fundamental_div_mod_converse(
            failures,
            per_url,
            i,
            failures - i * per_url,
        );
    }
    assert(per_url * (failures / per_url) == (failures / per_url) * per_url) by (nonlinear_arith);
}

/// Whether a database file that is there can stay: it has to be a file with something in it.
/// `size` is its size, where that can be found out.
pub fn keeps_geoip_db(is_file: bool, size: Option<u64>) -> (r: bool)
    ensures
        r == (is_file && size is Some && size->0 > 0),
{
    match size {
        Some(size) => is_file && size > 0,
        None => false,
    }
}

/// A file at GitHub can be had in three places: at its own address and behind the addresses of
/// two mirrors.
pub proof fn github_files_have_mirrors(rest: Seq<char>)
    ensures
        candidates("https://github.com/"@ + rest) == seq![
            "https://github.com/"@ + rest,
            "https://gh-proxy.com/"@ + ("https://github.com/"@ + rest),
            "https://ghproxy.net/"@ + ("https://github.com/"@ + rest),
        ],
        candidates("https://codeload.github.com/"@ + rest) == seq![
            "https://codeload.github.com/"@ + rest,
            "https://gh-proxy.com/"@ + ("https://codeload.github.com/"@ + rest),
            "https://ghproxy.net/"@ + ("https://codeload.github.com/"@ + rest),
        ],
{
    let a = "https://github.com/"@;
    let b = "https://codeload.github.com/"@;
    assert(a =~= (a + rest).subrange(0, a.len() as int));
    assert(b =~= (b + rest).subrange(0, b.len() as int));
}

/// Any other file can be had at its own address only.
pub proof fn other_files_have_no_mirrors(url: Seq<char>)
    requires
        forall|rest: Seq<char>| url != #[trigger] ("https://github.com/"@ + rest),
        forall|rest: Seq<char>| url != #[trigger] ("https://codeload.github.com/"@ + rest),
    ensures
        candidates(url) == seq![url],
{
    let a = "https://github.com/"@;
    let b = "https://codeload.github.com/"@;
    if a.is_prefix_of(url) {
        assert(url =~= a + url.skip(a.len() as int));
    }
    if b.is_prefix_of(url) {
        assert(url =~= b + url.skip(b.len() as int));
    }
}

/// Attempts go on until each address has been tried as often as it should be: as long as fewer
/// have failed there is an address to try, and with each failure one attempt fewer is left.
pub proof fn attempts_come_to_an_end(attempts: Attempts)
    requires
        attempts.wf(),
    ensures
        attempts.total() == attempts.urls().len() * attempts.per_url(),
        0 <= attempts.failures() <= attempts.total(),
        attempts.failures() < attempts.total() ==> 0 <= url_of_attempt(
            attempts.failures(),
            attempts.per_url(),
        ) < attempts.urls().len(),
{
    attempts.lemma_count();
}

/// Texts in a row keep their order.
pub proof fn texts_keep_their_order(strings: Seq<String>, i: int)
    requires
        0 <= i < strings.len(),
    ensures
        texts(strings).len() == strings.len(),
        texts(strings)[i] == strings[i]@,
{
}

} // verus!
