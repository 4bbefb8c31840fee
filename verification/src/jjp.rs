//! A download in a fixed number of tasks: what is downloaded, how the file is split, and
//! how the tasks are handed out and taken back.

use crate::text::{after_last, law_tail_is_behind_the_last, tail_after};
use reqwest::Proxy;
use vstd::prelude::*;

verus! {

/// The proxy that requests go through.
#[verifier::external_type_specification]
#[verifier::external_body]
pub struct ExProxy(Proxy);

/// The parts of a URL that a download goes by.
#[derive(Debug)]
pub struct UrlParts {
    /// The URL in its normal form.
    pub text: String,
    /// Its path.
    pub path: String,
    /// Whether it names a host.
    pub has_host: bool,
}

/// What the URL parser makes of a text: the normal form of the URL, its path and whether
/// it names a host, or why the text is no URL.
pub uninterp spec fn parsed_url(text: Seq<char>) -> Result<
    (Seq<char>, Seq<char>, bool),
    Seq<char>,
>;

/// The parts of a URL, in the shape in which `parsed_url` gives them.
pub open spec fn url_view(parts: Result<UrlParts, String>) -> Result<
    (Seq<char>, Seq<char>, bool),
    Seq<char>,
> {
    match parts {
        Ok(parts) => Ok((parts.text@, parts.path@, parts.has_host)),
        Err(e) => Err(e@),
    }
}

/// `Url::parse` reads a URL. Its result is named, not described: it is a function of the
/// text alone.
#[verifier::external_body]
fn parse_url(text: &str) -> (r: Result<UrlParts, String>)
    ensures
        url_view(r) == parsed_url(text@),
{
    let url = reqwest::Url::parse(text).map_err(|e| e.to_string())?;
    Ok(UrlParts {
        text: url.as_str().to_string(),
        path: url.path().to_string(),
        has_host: url.has_host(),
    })
}

/// Why a text cannot be downloaded from.
#[derive(Debug)]
pub enum UrlError {
    /// The text is no URL, for the given reason.
    Invalid(String),
    /// The URL, here in its normal form, names no host.
    NoHost(String),
}

/// How to set up the HTTP client.
pub struct ClientOptions {
    /// How the client presents itself.
    pub user_agent: String,
    /// The proxy to go through, if one was given.
    pub proxy: Option<Proxy>,
    /// Whether the proxies of the system are left aside.
    pub no_proxy: bool,
}

/// The name under which the client presents itself.
pub const USER_AGENT: &'static str = "Hello";

/// The number of tasks, unless another is chosen.
pub const DEFAULT_PARALLEL_NUM: usize = 4;

/// Settings of a download.
pub struct JjpBuilder {
    url: UrlParts,
    parallel_num: usize,
    mmap: bool,
    no_proxy: bool,
    proxy: Option<Proxy>,
    name: Option<String>,
}

/// What the settings of a download are.
pub struct Settings {
    pub url: Seq<char>,
    pub path: Seq<char>,
    pub parallel_num: nat,
    pub mmap: bool,
    pub no_proxy: bool,
    pub proxy: Option<Proxy>,
    pub name: Option<Seq<char>>,
}

impl View for JjpBuilder {
    type V = Settings;

    closed spec fn view(&self) -> Settings {
        Settings {
            url: self.url.text@,
            path: self.url.path@,
            parallel_num: self.parallel_num as nat,
            mmap: self.mmap,
            no_proxy: self.no_proxy,
            proxy: self.proxy,
            name: match self.name {
                Some(name) => Some(name@),
                None => None,
            },
        }
    }
}

/// The settings with which a download begins: four tasks, a memory map, the proxies of
/// the system, and the name that the URL gives.
pub open spec fn first_settings(url: Seq<char>, path: Seq<char>) -> Settings {
    Settings {
        url,
        path,
        parallel_num: DEFAULT_PARALLEL_NUM as nat,
        mmap: true,
        no_proxy: false,
        proxy: None,
        name: None,
    }
}

impl JjpBuilder {
    /// At least one task does the work.
    #[verifier::type_invariant]
    closed spec fn wf(&self) -> bool {
        self.parallel_num > 0
    }

    /// Settings for the URL that `url` denotes.
    pub fn new(url: &str) -> (r: Result<JjpBuilder, UrlError>)
        ensures
            match parsed_url(url@) {
                Err(e) => r matches Err(UrlError::Invalid(reason)) && reason@ == e,
                Ok((text, path, has_host)) => if has_host {
                    r matches Ok(b) && b@ == first_settings(text, path) && b@.parallel_num > 0
                } else {
                    r matches Err(UrlError::NoHost(refused)) && refused@ == text
                },
            },
    {
        JjpBuilder::from_parsed(parse_url(url))
    }

    /// Settings for a URL that the parser has gone through. One without a host cannot be
    /// downloaded from.
    pub fn from_parsed(parsed: Result<UrlParts, String>) -> (r: Result<JjpBuilder, UrlError>)
        ensures
            match parsed {
                Err(e) => r matches Err(UrlError::Invalid(reason)) && reason@ == e@,
                Ok(parts) => if parts.has_host {
                    r matches Ok(b) && b@ == first_settings(parts.text@, parts.path@)
                } else {
                    r matches Err(UrlError::NoHost(refused)) && refused@ == parts.text@
                },
            },
    {
        match parsed {
            Err(e) => Err(UrlError::Invalid(e)),
            Ok(parts) => {
                if parts.has_host {
                    Ok(
                        JjpBuilder {
                            url: parts,
                            parallel_num: DEFAULT_PARALLEL_NUM,
                            mmap: true,
                            no_proxy: false,
                            proxy: None,
                            name: None,
                        },
                    )
                } else {
                    Err(UrlError::NoHost(parts.text))
                }
            },
        }
    }

    /// Chooses the number of tasks. Zero leaves it as it was.
    pub fn parallel_num(self, num: usize) -> (r: JjpBuilder)
        ensures
            num != 0 ==> r@ == (Settings { parallel_num: num as nat, ..self@ }),
            num == 0 ==> r@ == self@,
    {
        proof {
            use_type_invariant(&self);
        }
        if num != 0 {
            JjpBuilder { parallel_num: num, ..self }
        } else {
            self
        }
    }

    /// Chooses the name of the file.
    pub fn name(self, name: String) -> (r: JjpBuilder)
        ensures
            r@ == (Settings { name: Some(name@), ..self@ }),
    {
        proof {
            use_type_invariant(&self);
        }
        JjpBuilder { name: Some(name), ..self }
    }

    /// Chooses a proxy.
    pub fn proxy(self, proxy: Proxy) -> (r: JjpBuilder)
        ensures
            r@ == (Settings { proxy: Some(proxy), ..self@ }),
    {
        proof {
            use_type_invariant(&self);
        }
        JjpBuilder { proxy: Some(proxy), ..self }
    }

    /// Chooses whether the proxies of the system are left aside.
    pub fn no_proxy(self, no: bool) -> (r: JjpBuilder)
        ensures
            r@ == (Settings { no_proxy: no, ..self@ }),
    {
        proof {
            use_type_invariant(&self);
        }
        JjpBuilder { no_proxy: no, ..self }
    }

    /// Chooses whether the file is written through a memory map.
    pub fn mmap(self, mmap: bool) -> (r: JjpBuilder)
        ensures
            r@ == (Settings { mmap, ..self@ }),
    {
        proof {
            use_type_invariant(&self);
        }
        JjpBuilder { mmap, ..self }
    }

    /// The URL to download from, in its normal form.
    pub fn url(&self) -> (r: &str)
        ensures
            r@ == self@.url,
    {
        self.url.text.as_str()
    }

    /// How to set up the HTTP client. The proxy is taken out of the settings.
    pub fn client_options(self) -> (r: (ClientOptions, JjpBuilder))
        ensures
            r.0.user_agent@ == USER_AGENT@,
            r.0.proxy == self@.proxy,
            r.0.no_proxy == self@.no_proxy,
            r.1@ == (Settings { proxy: None, ..self@ }),
    {
        proof {
            use_type_invariant(&self);
        }
        let options = ClientOptions {
            user_agent: USER_AGENT.to_string(),
            proxy: self.proxy,
            no_proxy: self.no_proxy,
        };
        let rest = JjpBuilder {
            url: self.url,
            parallel_num: self.parallel_num,
            mmap: self.mmap,
            no_proxy: self.no_proxy,
            proxy: None,
            name: self.name,
        };
        (options, rest)
    }

    /// The download that these settings make of a server that serves ranges or not, and
    /// of a file of the given length. Without ranges there is only one task. Without a
    /// chosen name the file is called like the last segment of the path.
    pub fn build(self, prepared: (bool, usize)) -> (r: JjP)
        ensures
            r@ == self@.job(prepared.0, prepared.1 as nat),
            r@.parallel_num > 0,
    {
        proof {
            use_type_invariant(&self);
        }
        let (parallel, length) = prepared;
        let name = match self.name {
            Some(name) => name,
            None => tail_after(self.url.path.as_str(), '/'),
        };
        JjP {
            url: self.url.text,
            name,
            parallel,
            parallel_num: if parallel {
                self.parallel_num
            } else {
                1
            },
            mmap: self.mmap,
            length,
        }
    }
}

impl Settings {
    /// The download that the settings make.
    pub open spec fn job(self, parallel: bool, length: nat) -> Job {
        Job {
            url: self.url,
            name: match self.name {
                Some(name) => name,
                None => after_last(self.path, '/'),
            },
            parallel,
            parallel_num: if parallel {
                self.parallel_num
            } else {
                1
            },
            mmap: self.mmap,
            length,
        }
    }
}

/// What is downloaded, and how.
pub struct Job {
    pub url: Seq<char>,
    pub name: Seq<char>,
    pub parallel: bool,
    pub parallel_num: nat,
    pub mmap: bool,
    pub length: nat,
}

/// A download.
pub struct JjP {
    url: String,
    name: String,
    parallel: bool,
    parallel_num: usize,
    mmap: bool,
    length: usize,
}

impl View for JjP {
    type V = Job;

    closed spec fn view(&self) -> Job {
        Job {
            url: self.url@,
            name: self.name@,
            parallel: self.parallel,
            parallel_num: self.parallel_num as nat,
            mmap: self.mmap,
            length: self.length as nat,
        }
    }
}

/// One stretch of the file. It is complete once its start has passed its end.
#[derive(Clone, Copy, PartialEq, Eq, Debug, Structural)]
pub struct Task {
    pub running: bool,
    pub done: bool,
    pub start_pos: usize,
    pub end_pos: usize,
}

impl Default for Task {
    fn default() -> (r: Task)
        ensures
            r == (Task { running: false, done: false, start_pos: 0, end_pos: 0 }),
    {
        Task { running: false, done: false, start_pos: 0, end_pos: 0 }
    }
}

impl Job {
    /// The length of every task but the last: the length of the file divided by the number
    /// of tasks, rounded up.
    pub open spec fn share(self) -> nat {
        if self.length % self.parallel_num != 0 {
            self.length / self.parallel_num + 1
        } else {
            self.length / self.parallel_num
        }
    }

    /// True where the file can be split: it is not empty, and the tasks before the last
    /// end at positions.
    pub open spec fn splittable(self) -> bool {
        self.parallel ==> {
            &&& self.length > 0
            &&& self.share() * (self.parallel_num - 1) <= usize::MAX
        }
    }

    /// True of a file that has been split by ranges.
    pub open spec fn is_split(self) -> bool {
        &&& self.parallel
        &&& self.splittable()
        &&& self.parallel_num > 0
        &&& self.length <= usize::MAX
    }

    /// The first byte of a task.
    pub open spec fn task_start(self, i: int) -> int {
        self.share() * i
    }

    /// The last byte of a task: the last task takes what is left.
    pub open spec fn task_end(self, i: int) -> int {
        if i < self.parallel_num - 1 {
            self.share() * (i + 1) - 1
        } else {
            self.length - 1
        }
    }

    /// The task in which a byte of the file lies.
    pub open spec fn owner(self, byte: int) -> int {
        if byte / (self.share() as int) < self.parallel_num - 1 {
            byte / (self.share() as int)
        } else {
            self.parallel_num - 1
        }
    }

    /// The tasks. Without ranges there is a single one, and where it ends is not known.
    pub open spec fn tasks(self) -> Seq<Task> {
        if self.parallel {
            Seq::new(
                self.parallel_num,
                |i: int|
                    Task {
                        running: false,
                        done: false,
                        start_pos: self.task_start(i) as usize,
                        end_pos: self.task_end(i) as usize,
                    },
            )
        } else {
            seq![Task { running: false, done: false, start_pos: 0, end_pos: 0 }]
        }
    }
}

impl JjP {
    /// At least one task does the work.
    #[verifier::type_invariant]
    closed spec fn wf(&self) -> bool {
        self.parallel_num > 0
    }

    /// The download of a URL with the usual settings.
    pub fn new(url: &str, prepared: (bool, usize)) -> (r: Result<JjP, UrlError>)
        ensures
            match parsed_url(url@) {
                Err(e) => r matches Err(UrlError::Invalid(reason)) && reason@ == e,
                Ok((text, path, has_host)) => if has_host {
                    r matches Ok(j) && j@ == first_settings(text, path).job(
                        prepared.0,
                        prepared.1 as nat,
                    )
                } else {
                    r matches Err(UrlError::NoHost(refused)) && refused@ == text
                },
            },
    {
        match JjpBuilder::new(url) {
            Ok(builder) => Ok(builder.build(prepared)),
            Err(e) => Err(e),
        }
    }

    /// Splits the file into tasks.
    pub fn split_task(&self) -> (r: Vec<Task>)
        requires
            self@.splittable(),
        ensures
            r@ == self@.tasks(),
    {
        proof {
            use_type_invariant(self);
        }
        let mut tasks: Vec<Task> = Vec::new();
        if !self.parallel {
            tasks.push(Task::default());
            assert(tasks@ =~= self@.tasks());
            return tasks;
        }
        let mut size = self.length / self.parallel_num;
        if self.length % self.parallel_num != 0 {
            proof {
                assert(size < self.length) by (nonlinear_arith)
                    requires
                        size == self.length / self.parallel_num,
                        self.length % self.parallel_num != 0,
                        self.length > 0,
                        self.parallel_num > 0,
                ;
            }
            size = size + 1;
        }
        proof {
            lemma_share_positive(self@);
        }
        let ghost n = self@.parallel_num as int;
        let mut next: usize = 0;
        let mut i: usize = 0;
        while i < self.parallel_num - 1
            invariant
                self.parallel,
                n == self@.parallel_num == self.parallel_num,
                i <= n - 1,
                size == self@.share(),
                size > 0,
                size * (n - 1) <= usize::MAX,
                next == size * i,
                tasks@.len() == i,
                forall|k: int| 0 <= k < i ==> tasks@[k] == #[trigger] self@.tasks()[k],
            decreases n - i,
        {
            proof {
                assert(size * (i + 1) == size * i + size) by (nonlinear_arith);
                assert(size * (i + 1) <= size * (n - 1)) by (nonlinear_arith)
                    requires
                        i + 1 <= n - 1,
                        size > 0,
                ;
            }
            let start_pos = next;
            next = next + size;
            let end_pos = next - 1;
            tasks.push(Task { running: false, done: false, start_pos, end_pos });
            i = i + 1;
        }
        tasks.push(
            Task { running: false, done: false, start_pos: next, end_pos: self.length - 1 },
        );
        assert(tasks@ =~= self@.tasks());
        tasks
    }

    /// The URL to download from.
    pub fn url(&self) -> (r: &str)
        ensures
            r@ == self@.url,
    {
        self.url.as_str()
    }

    /// The name of the file.
    pub fn name(&self) -> (r: &str)
        ensures
            r@ == self@.name,
    {
        self.name.as_str()
    }

    /// The length of the file, or zero where it is not known.
    pub fn length(&self) -> (r: usize)
        ensures
            r == self@.length,
    {
        self.length
    }

    /// The number of tasks that the file is split into.
    pub fn tasks_wanted(&self) -> (r: usize)
        ensures
            r == self@.parallel_num,
    {
        self.parallel_num
    }

    /// Whether the server serves ranges.
    pub fn parallel(&self) -> (r: bool)
        ensures
            r == self@.parallel,
    {
        self.parallel
    }

    /// Whether the file is written through a memory map: where the server serves ranges
    /// and nobody has chosen otherwise.
    pub fn writes_to_map(&self) -> (r: bool)
        ensures
            r == (self@.parallel && self@.mmap),
    {
        self.parallel && self.mmap
    }

    /// Whether the file can be split.
    pub fn is_splittable(&self) -> (r: bool)
        ensures
            r == self@.splittable(),
    {
        proof {
            use_type_invariant(self);
        }
        if !self.parallel {
            return true;
        }
        if self.length == 0 {
            return false;
        }
        let mut size: u128 = (self.length / self.parallel_num) as u128;
        if self.length % self.parallel_num != 0 {
            size = size + 1;
        }
        proof {
            let a = size as int;
            let b = self.parallel_num - 1;
            assert(a * b <= 0x1_0000_0000_0000_0000 * 0xffff_ffff_ffff_ffff) by (nonlinear_arith)
                requires
                    0 <= a <= 0x1_0000_0000_0000_0000,
                    0 <= b <= 0xffff_ffff_ffff_ffff,
            ;
        }
        size * (self.parallel_num - 1) as u128 <= usize::MAX as u128
    }
}

proof fn lemma_share_positive(job: Job)
    requires
        job.length > 0,
        job.parallel_num > 0,
    ensures
        job.share() > 0,
        job.share() * job.parallel_num >= job.length,
{
    let l = job.length as int;
    let n = job.parallel_num as int;
    let s = job.share() as int;
    let q = l / n;
    let r = l % n;
    vstd::arithmetic::div_mod::lemma_fundamental_div_mod(l, n);
    if r != 0 {
        assert((q + 1) * n == n * q + n) by (nonlinear_arith);
    } else {
        assert(q * n == n * q) by (nonlinear_arith);
    }
    assert(s * n >= l);
    assert(s > 0) by (nonlinear_arith)
        requires
            s * n >= l,
            l > 0,
            s >= 0,
            n > 0,
    ;
}

/// The positions of a task of a file that can be split are the computed ones.
proof fn lemma_task_positions(job: Job, i: int)
    requires
        job.is_split(),
        0 <= i < job.parallel_num,
    ensures
        job.tasks()[i].start_pos == job.task_start(i),
        job.tasks()[i].end_pos == job.task_end(i),
{
    lemma_share_positive(job);
    let s = job.share() as int;
    let n = job.parallel_num as int;
    assert(0 <= s * i <= s * (n - 1)) by (nonlinear_arith)
        requires
            0 <= i <= n - 1,
            s > 0,
    ;
    if i < n - 1 {
        assert(s <= s * (i + 1) <= s * (n - 1)) by (nonlinear_arith)
            requires
                1 <= i + 1 <= n - 1,
                s > 0,
        ;
    }
}

/// Every byte of the file lies in exactly one task.
pub proof fn law_split_covers_once(job: Job, byte: int, i: int)
    requires
        job.is_split(),
        0 <= byte < job.length,
        0 <= i < job.parallel_num,
    ensures
        job.tasks().len() == job.parallel_num,
        0 <= job.owner(byte) < job.parallel_num,
        job.tasks()[i].start_pos <= byte <= job.tasks()[i].end_pos <==> i == job.owner(byte),
{
    lemma_task_positions(job, i);
    lemma_share_positive(job);
    let s = job.share() as int;
    let q = byte / s;
    vstd::arithmetic::div_mod::lemma_fundamental_div_mod(byte, s);
    assert(byte == s * q + byte % s);
    assert(q >= 0) by (nonlinear_arith)
        requires
            byte == s * q + byte % s,
            byte >= 0,
            byte % s < s,
            s > 0,
    ;
    assert(s * (i + 1) == s * i + s) by (nonlinear_arith);
    assert(s * (q + 1) == s * q + s) by (nonlinear_arith);
    if i < q {
        assert(s * (i + 1) <= s * q) by (nonlinear_arith)
            requires
                i + 1 <= q,
                s > 0,
        ;
    }
    if i > q {
        assert(s * (q + 1) <= s * i) by (nonlinear_arith)
            requires
                q + 1 <= i,
                s > 0,
        ;
    }
}

/// The tasks follow one another without a gap, from the first byte of the file to the
/// last.
pub proof fn law_split_is_contiguous(job: Job)
    requires
        job.is_split(),
    ensures
        job.tasks()[0].start_pos == 0,
        job.tasks().last().end_pos == job.length - 1,
        forall|i: int|
            0 < i < job.parallel_num ==> (#[trigger] job.tasks()[i]).start_pos == job.tasks()[i
                - 1].end_pos + 1,
{
    lemma_task_positions(job, 0);
    lemma_task_positions(job, job.parallel_num - 1);
    assert forall|i: int| 0 < i < job.parallel_num implies (#[trigger] job.tasks()[i]).start_pos
        == job.tasks()[i - 1].end_pos + 1 by {
        lemma_task_positions(job, i);
        lemma_task_positions(job, i - 1);
    }
}

/// Where the tasks before the last do not use up more than the file, no task reaches
/// beyond its end.
pub proof fn law_split_stays_inside(job: Job, i: int)
    requires
        job.is_split(),
        job.share() * (job.parallel_num - 1) <= job.length,
        0 <= i < job.parallel_num,
    ensures
        job.tasks()[i].start_pos <= job.length,
        job.tasks()[i].end_pos < job.length,
{
    lemma_task_positions(job, i);
    lemma_share_positive(job);
    let s = job.share() as int;
    let n = job.parallel_num as int;
    assert(s * i <= s * (n - 1)) by (nonlinear_arith)
        requires
            i <= n - 1,
            s > 0,
    ;
    if i < n - 1 {
        assert(s * (i + 1) <= s * (n - 1)) by (nonlinear_arith)
            requires
                i + 1 <= n - 1,
                s > 0,
        ;
    }
}

proof fn lemma_share_is_least(job: Job)
    requires
        job.length > 0,
        job.parallel_num > 0,
    ensures
        (job.share() - 1) * job.parallel_num < job.length <= job.share() * job.parallel_num,
{
    lemma_share_positive(job);
    let l = job.length as int;
    let n = job.parallel_num as int;
    let q = l / n;
    vstd::arithmetic::div_mod::lemma_fundamental_div_mod(l, n);
    if l % n != 0 {
        assert(q * n < l) by (nonlinear_arith)
            requires
                l == n * q + l % n,
                l % n > 0,
        ;
    } else {
        assert((q - 1) * n < l) by (nonlinear_arith)
            requires
                l == n * q,
                n > 0,
        ;
    }
}

/// All tasks but the last are equally long, and no longer than they have to be for the file to
/// be covered. All are idle at first.
pub proof fn law_split_is_even(job: Job, i: int, j: int)
    requires
        job.is_split(),
        0 <= i < job.parallel_num,
        0 <= j < job.parallel_num,
    ensures
        job.tasks().len() == job.parallel_num,
        !job.tasks()[i].running && !job.tasks()[i].done,
        i < job.parallel_num - 1 ==> {
            let len = job.tasks()[i].end_pos - job.tasks()[i].start_pos + 1;
            (len - 1) * job.parallel_num < job.length <= len * job.parallel_num
        },
        i < job.parallel_num - 1 && j < job.parallel_num - 1 ==> job.tasks()[i].end_pos
            - job.tasks()[i].start_pos == job.tasks()[j].end_pos - job.tasks()[j].start_pos,
{
    lemma_task_positions(job, i);
    lemma_task_positions(job, j);
    lemma_share_is_least(job);
    let s = job.share() as int;
    assert(s * (i + 1) == s * i + s && s * (j + 1) == s * j + s) by (nonlinear_arith);
}

/// A file without ranges is one task, that begins at the first byte.
pub proof fn law_one_task_without_ranges(job: Job)
    requires
        !job.parallel,
    ensures
        job.splittable(),
        job.tasks() == seq![Task { running: false, done: false, start_pos: 0, end_pos: 0 }],
{
}

/// A file with ranges can be split where it is not empty and the last task begins at a position:
/// `len` is the least length with which the tasks cover the file.
pub proof fn law_what_can_be_split(job: Job, len: nat)
    requires
        job.parallel,
        job.parallel_num > 0,
        job.length > 0 ==> (len - 1) * job.parallel_num < job.length <= len * job.parallel_num,
    ensures
        job.length == 0 ==> !job.splittable(),
        job.length > 0 ==> (job.splittable() <==> len * (job.parallel_num - 1) <= usize::MAX),
{
    if job.length > 0 {
        lemma_share_is_least(job);
        let (s, n, l) = (job.share() as int, job.parallel_num as int, len as int);
        assert(s == l) by (nonlinear_arith)
            requires
                (s - 1) * n < job.length <= s * n,
                (l - 1) * n < job.length <= l * n,
                n > 0,
        ;
    }
}

/// The settings make a download of the same URL, with the length and the ranges that the server
/// told, written to as was chosen. Without ranges there is one task, otherwise as many as were
/// chosen. A chosen name is kept; otherwise the file is called like what follows the last slash
/// of the path, or like all of it where there is none.
pub proof fn law_settings_make_the_job(
    settings: Settings,
    parallel: bool,
    length: nat,
    head: Seq<char>,
    tail: Seq<char>,
)
    requires
        !tail.contains('/'),
    ensures
        ({
            let job = settings.job(parallel, length);
            &&& job.url == settings.url
            &&& job.length == length
            &&& job.parallel == parallel
            &&& job.mmap == settings.mmap
            &&& parallel ==> job.parallel_num == settings.parallel_num
            &&& !parallel ==> job.parallel_num == 1
            &&& settings.name matches Some(name) ==> job.name == name
            &&& settings.name is None && (settings.path == head + seq!['/'] + tail
                || settings.path == tail) ==> job.name == tail
        }),
{
    law_tail_is_behind_the_last(head, tail, '/');
    assert(head + seq!['/'] + tail =~= head.push('/') + tail);
}

/// A download begins with four tasks, a memory map, no proxy of its own, those of the system,
/// and no chosen name.
pub proof fn law_usual_settings(url: Seq<char>, path: Seq<char>)
    ensures
        ({
            let first = first_settings(url, path);
            &&& first.url == url && first.path == path
            &&& first.parallel_num == 4
            &&& first.mmap && !first.no_proxy
            &&& first.proxy is None && first.name is None
        }),
{
}

} // verus!
