//! The scanner: configuration, running totals, per-file ingestion, and the
//! final report of the most frequent words.

use vstd::prelude::*;
use crate::counts::WordCounts;
use crate::counts::entries_view;
use crate::counts::wf_counts;
use crate::counts::sum_counts;
use crate::counts::add_tokens;
use crate::counts::bytes_eq;
use crate::counts::lemma_add_tokens_sum;
use crate::report::top_words;
use crate::report::ranked;
use crate::report::sort_ranked;
use crate::text::copy_bytes;
use crate::text::count_hits;
use crate::text::lowercase_bytes;
use crate::text::lower_of;
use crate::text::is_hit;
use crate::text::lemma_count_hits_push;
use crate::text::lemma_lines_len_le;
use crate::text::line_matches;
use crate::text::lines_of;
use crate::text::split_lines;
use crate::text::trim_preview;
use crate::text::trim_spec;
use crate::text::PREVIEW_WIDTH;
use crate::tokenizer::lemma_tokens_len_le;
use crate::tokenizer::tokenize_words;
use crate::tokenizer::tokens_of;
use crate::tokenizer::views_of;

verus! {

/// At most this many search previews are shown over a whole run.
pub const PREVIEW_LIMIT: usize = 5;

pub const DOT: u8 = 46;

/// A run's configuration: the root path, an optional extension filter,
/// how many top words to report, and an optional search term.
pub struct Config {
    pub path: Vec<u8>,
    pub ext: Option<Vec<u8>>,
    pub top: usize,
    pub find: Option<Vec<u8>>,
}

/// Index of the last dot in a file name, or -1 when it has none.
pub open spec fn last_dot(name: Seq<u8>) -> int
    decreases name.len(),
{
    if name.len() == 0 {
        -1
    } else if name.last() == DOT {
        name.len() - 1
    } else {
        last_dot(name.drop_last())
    }
}

/// The extension of a file name: what follows the last dot, or empty when
/// there is no dot or only a leading one (a hidden file has no extension).
pub open spec fn ext_of(name: Seq<u8>) -> Seq<u8> {
    if last_dot(name) <= 0 {
        Seq::empty()
    } else {
        name.skip(last_dot(name) + 1)
    }
}

/// A configured filter with its leading dots stripped.
pub open spec fn strip_dots(s: Seq<u8>) -> Seq<u8>
    decreases s.len(),
{
    if s.len() > 0 && s[0] == DOT {
        strip_dots(s.drop_first())
    } else {
        s
    }
}

/// A file is ingested exactly when no filter is set or its extension
/// equals the configured filter (dots stripped, case-sensitive).
pub open spec fn passes_filter(ext: Option<Vec<u8>>, name: Seq<u8>) -> bool {
    match ext {
        Option::None => true,
        Option::Some(e) => ext_of(name) == strip_dots(e@),
    }
}

/// Ghost model of the running totals.
pub ghost struct TotalsM {
    pub files: nat,
    pub lines: nat,
    pub bytes: nat,
    pub hits: nat,
    pub previews: nat,
    pub counts: Seq<(Seq<u8>, nat)>,
}

/// Totals gathered while scanning.
pub struct ScanTotals {
    pub files_scanned: usize,
    pub total_lines: usize,
    pub total_bytes: u64,
    pub hits: usize,
    pub previews_shown: usize,
    pub word_counts: WordCounts,
}

impl View for ScanTotals {
    type V = TotalsM;

    open spec fn view(&self) -> TotalsM {
        TotalsM {
            files: self.files_scanned as nat,
            lines: self.total_lines as nat,
            bytes: self.total_bytes as nat,
            hits: self.hits as nat,
            previews: self.previews_shown as nat,
            counts: self.word_counts@,
        }
    }
}

/// Well-formed totals: a well-formed table, no more previews shown than
/// the cap, and no more word occurrences than bytes read.
pub open spec fn wf_totals(t: TotalsM) -> bool {
    &&& wf_counts(t.counts)
    &&& t.previews <= PREVIEW_LIMIT
    &&& sum_counts(t.counts) <= t.bytes
    &&& t.bytes <= u64::MAX
}

/// One search preview: where the hit was found and the trimmed line.
pub struct Preview {
    pub path: Vec<u8>,
    pub line_no: usize,
    pub text: Vec<u8>,
}

/// The views of a batch of previews.
pub open spec fn preview_views(s: Seq<Preview>) -> Seq<(Seq<u8>, int, Seq<u8>)> {
    s.map_values(|p: Preview| (p.path@, p.line_no as int, p.text@))
}

/// One file handed to the scanner: its path, its file name (the path's
/// final component), and its decoded content.
pub struct FileEntry {
    pub path: Vec<u8>,
    pub name: Vec<u8>,
    pub content: Vec<u8>,
}

/// The previews for the hit lines among `ls` (1-based numbering starting
/// at `base`), capped at `cap` lines.
pub open spec fn previews_of(ls: Seq<Seq<u8>>, needle: Seq<u8>, base: int, cap: nat) -> Seq<
    (int, Seq<u8>),
>
    decreases ls.len(),
{
    if ls.len() == 0 || cap == 0 {
        seq![]
    } else if is_hit(ls[0], needle) {
        seq![(base, trim_spec(ls[0], PREVIEW_WIDTH as nat))] + previews_of(
            ls.drop_first(),
            needle,
            base + 1,
            (cap - 1) as nat,
        )
    } else {
        previews_of(ls.drop_first(), needle, base + 1, cap)
    }
}

/// The previews one file contributes, given the totals before it.
pub open spec fn file_previews(t: TotalsM, find: Option<Vec<u8>>, content: Seq<u8>) -> Seq<
    (int, Seq<u8>),
> {
    match find {
        Option::None => seq![],
        Option::Some(n) => previews_of(
            lines_of(content),
            n@,
            1,
            (PREVIEW_LIMIT - t.previews) as nat,
        ),
    }
}

/// The totals after one file's content is ingested.
pub open spec fn ingest_m(t: TotalsM, find: Option<Vec<u8>>, content: Seq<u8>) -> TotalsM {
    TotalsM {
        files: t.files + 1,
        lines: t.lines + lines_of(content).len(),
        bytes: t.bytes + content.len(),
        hits: t.hits + match find {
            Option::None => 0nat,
            Option::Some(n) => count_hits(lines_of(content), n@),
        },
        previews: t.previews + file_previews(t, find, content).len(),
        counts: add_tokens(t.counts, tokens_of(content)),
    }
}

/// The preview cap: exactly as many previews are produced as there are
/// hit lines, up to the cap; hits beyond the cap are still counted but
/// produce no preview.
pub proof fn lemma_previews_capped(ls: Seq<Seq<u8>>, needle: Seq<u8>, base: int, cap: nat)
    ensures
        previews_of(ls, needle, base, cap).len() == if count_hits(ls, needle) <= cap {
            count_hits(ls, needle)
        } else {
            cap
        },
    decreases ls.len(),
{
    if ls.len() == 0 || cap == 0 {
    } else if is_hit(ls[0], needle) {
        lemma_previews_capped(ls.drop_first(), needle, base + 1, (cap - 1) as nat);
    } else {
        lemma_previews_capped(ls.drop_first(), needle, base + 1, cap);
    }
}

/// Hit lines never outnumber the lines.
pub proof fn lemma_count_hits_le(ls: Seq<Seq<u8>>, needle: Seq<u8>)
    ensures
        count_hits(ls, needle) <= ls.len(),
    decreases ls.len(),
{
    if ls.len() > 0 {
        lemma_count_hits_le(ls.drop_first(), needle);
    }
}

/// Main scanner type: keeps the configuration and the running totals
/// together.
pub struct Scanner {
    pub cfg: Config,
    pub totals: ScanTotals,
}

impl Scanner {
    /// A fresh scanner for the given configuration, with all totals zero.
    pub fn new(cfg: Config) -> (r: Scanner)
        ensures
            r.cfg == cfg,
            r.totals@ == (TotalsM {
                files: 0,
                lines: 0,
                bytes: 0,
                hits: 0,
                previews: 0,
                counts: Seq::<(Seq<u8>, nat)>::empty(),
            }),
            wf_totals(r.totals@),
    {
        let r = Scanner {
            cfg,
            totals: ScanTotals {
                files_scanned: 0,
                total_lines: 0,
                total_bytes: 0,
                hits: 0,
                previews_shown: 0,
                word_counts: WordCounts::new(),
            },
        };
        r
    }

    /// Whether the configured extension filter lets this file name pass.
    pub fn wants_file(&self, name: &Vec<u8>) -> (r: bool)
        ensures
            r == passes_filter(self.cfg.ext, name@),
    {
        match &self.cfg.ext {
            Option::None => true,
            Option::Some(e) => {
                let want = strip_dots_exec(e);
                let actual = ext_of_name(name);
                bytes_eq(actual.as_slice(), want.as_slice())
            },
        }
    }

    /// The top `n` words by descending count (ties broken by word order):
    /// `min(n, distinct words)` entries, ranked, as a pure function of the
    /// totals.
    pub fn report(&self, n: usize) -> (r: Vec<(Vec<u8>, u64)>)
        ensures
            entries_view(r@) == top_words(self.totals@.counts, n as int),
    {
        let entries = &self.totals.word_counts.entries;
        let mut copy: Vec<(Vec<u8>, u64)> = Vec::new();
        let mut i: usize = 0;
        while i < entries.len()
            invariant
                0 <= i <= entries@.len(),
                copy@.len() == i,
                forall|j: int|
                    0 <= j < i ==> (#[trigger] copy@[j]).0@ == entries@[j].0@ && copy@[j].1
                        == entries@[j].1,
            decreases entries@.len() - i,
        {
            let word = copy_bytes(entries[i].0.as_slice());
            let c = entries[i].1;
            copy.push((word, c));
            i = i + 1;
        }
        proof {
            assert(entries_view(copy@) =~= self.totals@.counts);
        }
        let mut sorted = sort_ranked(copy);
        proof {
            assert(entries_view(sorted@) == ranked(self.totals@.counts));
        }
        let ghost full = entries_view(sorted@);
        sorted.truncate(n);
        proof {
            if n <= full.len() {
                assert(entries_view(sorted@) =~= full.take(n as int));
            }
            assert(entries_view(sorted@) == top_words(self.totals@.counts, n as int));
        }
        sorted
    }
}

/// The line-number/text pairs of a batch of previews (without the path).
pub open spec fn preview_pairs(s: Seq<Preview>) -> Seq<(int, Seq<u8>)> {
    s.map_values(|p: Preview| (p.line_no as int, p.text@))
}

impl Scanner {
    /// Ingest one file's content: add its byte, line and word counts to
    /// the totals and, when a search term is configured, count its hit
    /// lines and hand back the previews the run-wide cap still allows
    /// (1-based line numbers, lines trimmed for display, each tagged with
    /// `path`).
    pub fn ingest(&mut self, path: &Vec<u8>, content: &Vec<u8>) -> (previews: Vec<Preview>)
        requires
            wf_totals(old(self).totals@),
            old(self).totals@.files + 1 <= usize::MAX,
            old(self).totals@.lines + content@.len() <= usize::MAX,
            old(self).totals@.hits + content@.len() <= usize::MAX,
            old(self).totals@.bytes + content@.len() <= u64::MAX,
        ensures
            final(self).cfg == old(self).cfg,
            final(self).totals@ == ingest_m(old(self).totals@, old(self).cfg.find, content@),
            wf_totals(final(self).totals@),
            preview_pairs(previews@) == file_previews(
                old(self).totals@,
                old(self).cfg.find,
                content@,
            ),
            forall|j: int| 0 <= j < previews@.len() ==> (#[trigger] previews@[j]).path@ == path@,
    {
        let ghost t0 = self.totals@;
        let lines = split_lines(content.as_slice());
        let ghost ls = views_of(lines@);
        let line_count = lines.len();
        proof {
            lemma_lines_len_le(content@);
        }
        let mut previews: Vec<Preview> = Vec::new();
        let mut local_hits: usize = 0;
        let allowed = PREVIEW_LIMIT - self.totals.previews_shown;
        let ghost cap0 = allowed as nat;

        match &self.cfg.find {
            Option::None => {},
            Option::Some(n) => {
                let ghost needle = n@;
                let needle_folded = lowercase_bytes(n.as_slice());
                let mut i: usize = 0;
                proof {
                    assert(ls.skip(0) =~= ls);
                    assert(ls.take(0) =~= Seq::<Seq<u8>>::empty());
                    assert(preview_pairs(previews@) =~= Seq::<(int, Seq<u8>)>::empty());
                }
                while i < lines.len()
                    invariant
                        0 <= i <= lines@.len(),
                        ls == views_of(lines@),
                        needle_folded@ == lower_of(needle),
                        local_hits == count_hits(ls.take(i as int), needle),
                        local_hits <= i,
                        previews@.len() <= cap0,
                        cap0 == allowed as nat,
                        cap0 <= PREVIEW_LIMIT,
                        preview_pairs(previews@) + previews_of(
                            ls.skip(i as int),
                            needle,
                            i as int + 1,
                            (cap0 - previews@.len()) as nat,
                        ) == previews_of(ls, needle, 1, cap0),
                        forall|j: int|
                            0 <= j < previews@.len() ==> (#[trigger] previews@[j]).path@
                                == path@,
                    decreases lines@.len() - i,
                {
                    proof {
                        assert(ls.skip(i as int)[0] == ls[i as int]);
                        assert(ls[i as int] == lines@[i as int]@);
                        assert(ls.skip(i as int).drop_first() =~= ls.skip(i as int + 1));
                        assert(ls.take(i as int + 1) =~= ls.take(i as int).push(ls[i as int]));
                        lemma_count_hits_push(ls.take(i as int), ls[i as int], needle);
                    }
                    let ghost cap_left = (cap0 - previews@.len()) as nat;
                    let hit = line_matches(lines[i].as_slice(), needle_folded.as_slice());
                    proof {
                        assert(hit == is_hit(ls[i as int], needle));
                    }
                    if hit {
                        local_hits = local_hits + 1;
                        if previews.len() < allowed {
                            let ghost old_previews = previews@;
                            let text = trim_preview(lines[i].as_slice(), PREVIEW_WIDTH);
                            let p = Preview {
                                path: copy_bytes(path.as_slice()),
                                line_no: i + 1,
                                text,
                            };
                            previews.push(p);
                            proof {
                                assert(preview_pairs(previews@) =~= preview_pairs(
                                    old_previews,
                                ).push((i as int + 1, trim_spec(ls[i as int], PREVIEW_WIDTH as nat))));
                                assert(previews_of(ls.skip(i as int), needle, i as int + 1, cap_left)
                                    == seq![(i as int + 1, trim_spec(ls[i as int], PREVIEW_WIDTH as nat))]
                                    + previews_of(
                                    ls.skip(i as int + 1),
                                    needle,
                                    i as int + 2,
                                    (cap_left - 1) as nat,
                                ));
                                assert(preview_pairs(previews@) + previews_of(
                                    ls.skip(i as int + 1),
                                    needle,
                                    i as int + 2,
                                    (cap0 - previews@.len()) as nat,
                                ) =~= preview_pairs(old_previews) + previews_of(
                                    ls.skip(i as int),
                                    needle,
                                    i as int + 1,
                                    cap_left,
                                ));
                            }
                        } else {
                            proof {
                                assert(cap_left == 0);
                                assert(previews_of(ls.skip(i as int), needle, i as int + 1, 0nat)
                                    =~= Seq::<(int, Seq<u8>)>::empty());
                                assert(previews_of(ls.skip(i as int + 1), needle, i as int + 2, 0nat)
                                    =~= Seq::<(int, Seq<u8>)>::empty());
                            }
                        }
                    } else {
                        proof {
                            assert(previews_of(ls.skip(i as int), needle, i as int + 1, cap_left)
                                == previews_of(ls.skip(i as int + 1), needle, i as int + 2, cap_left));
                        }
                    }
                    i = i + 1;
                }
                proof {
                    assert(ls.take(ls.len() as int) =~= ls);
                    assert(ls.skip(ls.len() as int) =~= Seq::<Seq<u8>>::empty());
                    assert(previews_of(
                        ls.skip(ls.len() as int),
                        needle,
                        ls.len() as int + 1,
                        (cap0 - previews@.len()) as nat,
                    ) =~= Seq::<(int, Seq<u8>)>::empty());
                    assert(preview_pairs(previews@) =~= previews_of(ls, needle, 1, cap0));
                    lemma_count_hits_le(ls, needle);
                }
            },
        }

        proof {
            assert(file_previews(t0, self.cfg.find, content@) == preview_pairs(previews@));
        }
        self.totals.hits = self.totals.hits + local_hits;
        self.totals.previews_shown = self.totals.previews_shown + previews.len();

        let words = tokenize_words(content.as_slice());
        proof {
            lemma_tokens_len_le(content@);
            assert(views_of(words@) == tokens_of(content@));
            assert(words@.len() == tokens_of(content@).len());
            assert(sum_counts(self.totals.word_counts@) <= t0.bytes);
        }
        self.totals.word_counts.add_words(words);
        proof {
            lemma_add_tokens_sum(t0.counts, tokens_of(content@));
        }
        self.totals.files_scanned = self.totals.files_scanned + 1;
        self.totals.total_lines = self.totals.total_lines + line_count;
        self.totals.total_bytes = self.totals.total_bytes + (content.len() as u64);
        proof {
            assert(self.totals@ == ingest_m(t0, self.cfg.find, content@));
        }
        previews
    }
}

/// The total byte length of a batch of files' contents.
pub open spec fn total_len(fs: Seq<FileEntry>) -> nat
    decreases fs.len(),
{
    if fs.len() == 0 {
        0
    } else {
        fs[0].content@.len() + total_len(fs.drop_first())
    }
}

/// The totals after a batch of files: each file that passes the extension
/// filter is ingested, in order; the others leave the totals untouched.
pub open spec fn run_m(
    t: TotalsM,
    find: Option<Vec<u8>>,
    ext: Option<Vec<u8>>,
    fs: Seq<FileEntry>,
) -> TotalsM
    decreases fs.len(),
{
    if fs.len() == 0 {
        t
    } else {
        let t1 = if passes_filter(ext, fs[0].name@) {
            ingest_m(t, find, fs[0].content@)
        } else {
            t
        };
        run_m(t1, find, ext, fs.drop_first())
    }
}

/// A file's previews, each tagged with its path.
pub open spec fn with_path(p: Seq<u8>, q: Seq<(int, Seq<u8>)>) -> Seq<(Seq<u8>, int, Seq<u8>)> {
    q.map_values(|e: (int, Seq<u8>)| (p, e.0, e.1))
}

/// The previews a batch of files produces, in traversal order.
pub open spec fn run_previews_m(
    t: TotalsM,
    find: Option<Vec<u8>>,
    ext: Option<Vec<u8>>,
    fs: Seq<FileEntry>,
) -> Seq<(Seq<u8>, int, Seq<u8>)>
    decreases fs.len(),
{
    if fs.len() == 0 {
        seq![]
    } else if passes_filter(ext, fs[0].name@) {
        with_path(fs[0].path@, file_previews(t, find, fs[0].content@)) + run_previews_m(
            ingest_m(t, find, fs[0].content@),
            find,
            ext,
            fs.drop_first(),
        )
    } else {
        run_previews_m(t, find, ext, fs.drop_first())
    }
}

proof fn lemma_run_m_push(
    t: TotalsM,
    find: Option<Vec<u8>>,
    ext: Option<Vec<u8>>,
    fs: Seq<FileEntry>,
    f: FileEntry,
)
    ensures
        run_m(t, find, ext, fs.push(f)) == (if passes_filter(ext, f.name@) {
            ingest_m(run_m(t, find, ext, fs), find, f.content@)
        } else {
            run_m(t, find, ext, fs)
        }),
    decreases fs.len(),
{
    if fs.len() == 0 {
        assert(fs.push(f)[0] == f);
        assert(fs.push(f).drop_first() =~= fs);
        let t1 = if passes_filter(ext, f.name@) {
            ingest_m(t, find, f.content@)
        } else {
            t
        };
        assert(run_m(t1, find, ext, fs) == t1);
        assert(run_m(t, find, ext, fs) == t);
    } else {
        assert(fs.push(f)[0] == fs[0]);
        assert(fs.push(f).drop_first() =~= fs.drop_first().push(f));
        let t1 = if passes_filter(ext, fs[0].name@) {
            ingest_m(t, find, fs[0].content@)
        } else {
            t
        };
        lemma_run_m_push(t1, find, ext, fs.drop_first(), f);
    }
}

proof fn lemma_run_previews_push(
    t: TotalsM,
    find: Option<Vec<u8>>,
    ext: Option<Vec<u8>>,
    fs: Seq<FileEntry>,
    f: FileEntry,
)
    ensures
        run_previews_m(t, find, ext, fs.push(f)) == run_previews_m(t, find, ext, fs) + (
        if passes_filter(ext, f.name@) {
            with_path(f.path@, file_previews(run_m(t, find, ext, fs), find, f.content@))
        } else {
            Seq::<(Seq<u8>, int, Seq<u8>)>::empty()
        }),
    decreases fs.len(),
{
    if fs.len() == 0 {
        assert(fs.push(f)[0] == f);
        assert(fs.push(f).drop_first() =~= fs);
        let t1 = if passes_filter(ext, f.name@) {
            ingest_m(t, find, f.content@)
        } else {
            t
        };
        assert(run_previews_m(t1, find, ext, fs) =~= Seq::<(Seq<u8>, int, Seq<u8>)>::empty());
        assert(run_previews_m(t, find, ext, fs) =~= Seq::<(Seq<u8>, int, Seq<u8>)>::empty());
        assert(run_m(t, find, ext, fs) == t);
        assert(run_previews_m(t, find, ext, fs.push(f)) =~= run_previews_m(t, find, ext, fs) + (
        if passes_filter(ext, f.name@) {
            with_path(f.path@, file_previews(run_m(t, find, ext, fs), find, f.content@))
        } else {
            Seq::<(Seq<u8>, int, Seq<u8>)>::empty()
        }));
    } else {
        assert(fs.push(f)[0] == fs[0]);
        assert(fs.push(f).drop_first() =~= fs.drop_first().push(f));
        let t1 = if passes_filter(ext, fs[0].name@) {
            ingest_m(t, find, fs[0].content@)
        } else {
            t
        };
        lemma_run_previews_push(t1, find, ext, fs.drop_first(), f);
        assert(run_previews_m(t, find, ext, fs.push(f)) =~= run_previews_m(t, find, ext, fs) + (
        if passes_filter(ext, f.name@) {
            with_path(f.path@, file_previews(run_m(t, find, ext, fs), find, f.content@))
        } else {
            Seq::<(Seq<u8>, int, Seq<u8>)>::empty()
        }));
    }
}

/// The number of tokens in the filter-passing files of a batch.
pub open spec fn total_tokens(fs: Seq<FileEntry>, ext: Option<Vec<u8>>) -> nat
    decreases fs.len(),
{
    if fs.len() == 0 {
        0
    } else {
        (if passes_filter(ext, fs[0].name@) {
            tokens_of(fs[0].content@).len()
        } else {
            0nat
        }) + total_tokens(fs.drop_first(), ext)
    }
}

/// How many files of a batch pass the extension filter.
pub open spec fn count_passing(fs: Seq<FileEntry>, ext: Option<Vec<u8>>) -> nat
    decreases fs.len(),
{
    if fs.len() == 0 {
        0
    } else {
        (if passes_filter(ext, fs[0].name@) {
            1nat
        } else {
            0nat
        }) + count_passing(fs.drop_first(), ext)
    }
}

/// Over a whole run, the word counts sum to exactly the number of tokens
/// the tokenizer produces across the ingested files.
pub proof fn lemma_run_token_sum(
    t: TotalsM,
    find: Option<Vec<u8>>,
    ext: Option<Vec<u8>>,
    fs: Seq<FileEntry>,
)
    ensures
        sum_counts(run_m(t, find, ext, fs).counts) == sum_counts(t.counts) + total_tokens(fs, ext),
    decreases fs.len(),
{
    if fs.len() == 0 {
    } else {
        let t1 = if passes_filter(ext, fs[0].name@) {
            ingest_m(t, find, fs[0].content@)
        } else {
            t
        };
        if passes_filter(ext, fs[0].name@) {
            lemma_add_tokens_sum(t.counts, tokens_of(fs[0].content@));
        }
        lemma_run_token_sum(t1, find, ext, fs.drop_first());
    }
}

/// A run ingests a file exactly when it passes the extension filter: the
/// file count grows by the number of passing files and no others.
pub proof fn lemma_run_files_counted(
    t: TotalsM,
    find: Option<Vec<u8>>,
    ext: Option<Vec<u8>>,
    fs: Seq<FileEntry>,
)
    ensures
        run_m(t, find, ext, fs).files == t.files + count_passing(fs, ext),
    decreases fs.len(),
{
    if fs.len() == 0 {
    } else {
        let t1 = if passes_filter(ext, fs[0].name@) {
            ingest_m(t, find, fs[0].content@)
        } else {
            t
        };
        lemma_run_files_counted(t1, find, ext, fs.drop_first());
    }
}

impl Scanner {
    /// Scan a batch of already-read files: ingest each one that the
    /// extension filter lets pass, in order, and return the previews
    /// produced along the way.
    pub fn run(&mut self, files: &Vec<FileEntry>) -> (previews: Vec<Preview>)
        requires
            wf_totals(old(self).totals@),
            old(self).totals@.files + files@.len() <= usize::MAX,
            old(self).totals@.lines + total_len(files@) <= usize::MAX,
            old(self).totals@.hits + total_len(files@) <= usize::MAX,
            old(self).totals@.bytes + total_len(files@) <= u64::MAX,
        ensures
            final(self).cfg == old(self).cfg,
            final(self).totals@ == run_m(
                old(self).totals@,
                old(self).cfg.find,
                old(self).cfg.ext,
                files@,
            ),
            wf_totals(final(self).totals@),
            preview_views(previews@) == run_previews_m(
                old(self).totals@,
                old(self).cfg.find,
                old(self).cfg.ext,
                files@,
            ),
    {
        let ghost t0 = self.totals@;
        let ghost cfg0 = self.cfg;
        let mut out: Vec<Preview> = Vec::new();
        let mut i: usize = 0;
        proof {
            assert(files@.take(0) =~= Seq::<FileEntry>::empty());
            assert(files@.skip(0) =~= files@);
            assert(preview_views(out@) =~= Seq::<(Seq<u8>, int, Seq<u8>)>::empty());
        }
        while i < files.len()
            invariant
                0 <= i <= files@.len(),
                self.cfg == cfg0,
                wf_totals(self.totals@),
                self.totals@ == run_m(t0, cfg0.find, cfg0.ext, files@.take(i as int)),
                preview_views(out@) == run_previews_m(t0, cfg0.find, cfg0.ext, files@.take(i as int)),
                self.totals@.files + (files@.len() - i) <= usize::MAX,
                self.totals@.lines + total_len(files@.skip(i as int)) <= usize::MAX,
                self.totals@.hits + total_len(files@.skip(i as int)) <= usize::MAX,
                self.totals@.bytes + total_len(files@.skip(i as int)) <= u64::MAX,
            decreases files@.len() - i,
        {
            proof {
                assert(files@.skip(i as int)[0] == files@[i as int]);
                assert(files@.skip(i as int).drop_first() =~= files@.skip(i as int + 1));
                assert(files@.take(i as int + 1) =~= files@.take(i as int).push(files@[i as int]));
                lemma_run_m_push(t0, cfg0.find, cfg0.ext, files@.take(i as int), files@[i as int]);
                lemma_run_previews_push(
                    t0,
                    cfg0.find,
                    cfg0.ext,
                    files@.take(i as int),
                    files@[i as int],
                );
            }
            let f = &files[i];
            if self.wants_file(&f.name) {
                let ghost before = self.totals@;
                proof {
                    lemma_lines_len_le(f.content@);
                }
                let mut ps = self.ingest(&f.path, &f.content);
                let ghost old_out = out@;
                let ghost psv = ps@;
                out.append(&mut ps);
                proof {
                    match cfg0.find {
                        Option::None => {},
                        Option::Some(n) => {
                            lemma_count_hits_le(lines_of(files@[i as int].content@), n@);
                        },
                    }
                    assert(preview_views(out@) =~= preview_views(old_out) + preview_views(psv));
                    assert(preview_views(psv) =~= with_path(
                        files@[i as int].path@,
                        preview_pairs(psv),
                    ));
                }
            } else {
                proof {
                    assert(preview_views(out@) =~= preview_views(out@) + Seq::<
                        (Seq<u8>, int, Seq<u8>),
                    >::empty());
                }
            }
            i = i + 1;
        }
        proof {
            assert(files@.take(files@.len() as int) =~= files@);
        }
        out
    }
}

/// Strip every leading dot from a configured extension.
pub fn strip_dots_exec(s: &Vec<u8>) -> (r: Vec<u8>)
    ensures
        r@ == strip_dots(s@),
{
    let mut i: usize = 0;
    proof {
        assert(s@.skip(0) =~= s@);
    }
    while i < s.len() && s[i] == DOT
        invariant
            0 <= i <= s@.len(),
            strip_dots(s@) == strip_dots(s@.skip(i as int)),
            forall|j: int| 0 <= j < i ==> s@[j] == DOT,
        decreases s@.len() - i,
    {
        proof {
            assert(s@.skip(i as int)[0] == s@[i as int]);
            assert(s@.skip(i as int).drop_first() =~= s@.skip(i as int + 1));
        }
        i = i + 1;
    }
    proof {
        if i < s.len() {
            assert(s@.skip(i as int)[0] == s@[i as int]);
        }
        assert(strip_dots(s@.skip(i as int)) == s@.skip(i as int));
    }
    copy_bytes_from(s, i)
}

/// Copy the bytes of `s` from position `from` on.
fn copy_bytes_from(s: &Vec<u8>, from: usize) -> (r: Vec<u8>)
    requires
        from <= s@.len(),
    ensures
        r@ == s@.skip(from as int),
{
    let mut r: Vec<u8> = Vec::new();
    let mut i: usize = from;
    while i < s.len()
        invariant
            from <= i <= s@.len(),
            r@.len() == i - from,
            forall|j: int| 0 <= j < r@.len() ==> r@[j] == s@[from + j],
        decreases s@.len() - i,
    {
        r.push(s[i]);
        i = i + 1;
    }
    proof {
        assert(r@ =~= s@.skip(from as int));
    }
    r
}

/// The extension of a file name, or an empty vector when it has none.
pub fn ext_of_name(name: &Vec<u8>) -> (r: Vec<u8>)
    ensures
        r@ == ext_of(name@),
{
    let mut i: usize = name.len();
    proof {
        assert(name@.take(name@.len() as int) =~= name@);
    }
    while i > 0
        invariant
            0 <= i <= name@.len(),
            last_dot(name@) == last_dot(name@.take(i as int)),
            forall|j: int| i <= j < name@.len() ==> name@[j] != DOT,
        decreases i,
    {
        proof {
            assert(name@.take(i as int).last() == name@[i as int - 1]);
            assert(name@.take(i as int).drop_last() =~= name@.take(i as int - 1));
        }
        if name[i - 1] == DOT {
            proof {
                assert(last_dot(name@) == i - 1);
            }
            if i - 1 == 0 {
                return Vec::new();
            }
            return copy_bytes_from(name, i);
        }
        i = i - 1;
    }
    proof {
        assert(name@.take(0) =~= Seq::<u8>::empty());
        assert(last_dot(name@) == -1);
    }
    Vec::new()
}

} // verus!
