//! The log cursor: incremental forward scan of one stream's chat log.
//!
//! The cursor holds the decoded log lines, the index of the next unread
//! line, the timestamp of the most recently read line, and at most one
//! item read past the end of the previous window (the orphan).  One call
//! answers one closed window `[start, end]`; consecutive touching
//! windows never re-read a line, and a window that starts before the
//! last seen timestamp rewinds to the beginning of the log first.

use vstd::prelude::*;

use crate::item::{Item, ItemModel};
use crate::parse::{parse_error_kind, parse_line, parse_line_spec, ParseError};

verus! {

/// Mathematical model of a [`LogCursor`].
pub ghost struct CursorModel {
    /// The log's lines, fixed for the cursor's lifetime.
    pub log: Seq<Seq<char>>,
    /// Index of the next line to read.
    pub pos: int,
    /// Timestamp of the most recently read line, or the stream's
    /// recording start time while no line has been read.
    pub last_seen: int,
    /// The one item read past the end of the previous window, if any.
    pub orphan: Option<ItemModel>,
}

/// Everything one forward scan determines: the emitted items (or the
/// parse failure), and the state the cursor is left in.
pub ghost struct ScanOut {
    pub result: Result<Seq<ItemModel>, ParseError>,
    pub pos: int,
    pub last_seen: int,
    pub orphan: Option<ItemModel>,
}

/// The forward scan from line `pos` with an empty orphan slot: a line
/// that fails to parse aborts the scan; `last_seen` advances to every
/// parsed timestamp; lines before `start` are discarded, the first line
/// past `end` is stashed as the orphan, and everything in the window is
/// emitted in log order.
pub open spec fn scan(log: Seq<Seq<char>>, pos: int, last_seen: int, start: int, end: int) -> ScanOut
    decreases log.len() - pos,
{
    if pos < 0 || pos >= log.len() {
        ScanOut { result: Ok(Seq::empty()), pos: pos, last_seen: last_seen, orphan: None }
    } else {
        match parse_line_spec(log[pos]) {
            None => ScanOut {
                result: Err(parse_error_kind(log[pos])),
                pos: pos + 1,
                last_seen: last_seen,
                orphan: None,
            },
            Some(item) => {
                if item.ts < start {
                    scan(log, pos + 1, item.ts, start, end)
                } else if item.ts > end {
                    ScanOut {
                        result: Ok(Seq::empty()),
                        pos: pos + 1,
                        last_seen: item.ts,
                        orphan: Some(item),
                    }
                } else {
                    let rest = scan(log, pos + 1, item.ts, start, end);
                    ScanOut {
                        result: match rest.result {
                            Ok(tail) => Ok(seq![item] + tail),
                            Err(e) => Err(e),
                        },
                        pos: rest.pos,
                        last_seen: rest.last_seen,
                        orphan: rest.orphan,
                    }
                }
            },
        }
    }
}

/// A window that starts before the last seen timestamp reads data the
/// cursor has scanned past; the line source cannot seek backwards, so
/// the cursor rewinds to the beginning and discards the orphan.
pub open spec fn seek_step(c: CursorModel, start: int) -> CursorModel {
    if start < c.last_seen {
        CursorModel { log: c.log, pos: 0, last_seen: c.last_seen, orphan: None }
    } else {
        c
    }
}

/// One whole `get_between` call on the model: rewind if the window lies
/// in the past, dispose of the held orphan (emit it if it falls in the
/// window, keep it if the window ends before it, drop it if stale), then
/// scan forward.
pub open spec fn window_step(c: CursorModel, start: int, end: int) -> (Result<
    Seq<ItemModel>,
    ParseError,
>, CursorModel) {
    let c1 = seek_step(c, start);
    match c1.orphan {
        Some(o) => {
            if start <= o.ts && o.ts <= end {
                let s = scan(c1.log, c1.pos, o.ts, start, end);
                (
                    match s.result {
                        Ok(tail) => Ok(seq![o] + tail),
                        Err(e) => Err(e),
                    },
                    CursorModel { log: c1.log, pos: s.pos, last_seen: s.last_seen, orphan: s.orphan },
                )
            } else if o.ts > end {
                (Ok(Seq::empty()), c1)
            } else {
                let s = scan(c1.log, c1.pos, c1.last_seen, start, end);
                (
                    s.result,
                    CursorModel { log: c1.log, pos: s.pos, last_seen: s.last_seen, orphan: s.orphan },
                )
            }
        },
        None => {
            let s = scan(c1.log, c1.pos, c1.last_seen, start, end);
            (
                s.result,
                CursorModel { log: c1.log, pos: s.pos, last_seen: s.last_seen, orphan: s.orphan },
            )
        },
    }
}

/// The items of a `Result` of a window query, as models.
pub open spec fn result_view(r: Result<Vec<Item>, ParseError>) -> Result<Seq<ItemModel>, ParseError> {
    match r {
        Ok(items) => Ok(items.deep_view()),
        Err(e) => Err(e),
    }
}

/// One session's cursor over one stream's chat log.
pub struct LogCursor {
    lines: Vec<String>,
    pos: usize,
    last_seen: i64,
    orphan: Option<Item>,
}

impl View for LogCursor {
    type V = CursorModel;

    closed spec fn view(&self) -> CursorModel {
        CursorModel {
            log: self.lines.deep_view(),
            pos: self.pos as int,
            last_seen: self.last_seen as int,
            orphan: self.orphan.deep_view(),
        }
    }
}

impl LogCursor {
    /// The cursor never stands past the end of its log.
    pub closed spec fn wf(&self) -> bool {
        self.pos <= self.lines.len()
    }

    /// A fresh cursor over the given log lines, with `last_seen`
    /// initialized to the stream's recording start time.
    pub fn new(lines: Vec<String>, start_time: i64) -> (c: LogCursor)
        ensures
            c.wf(),
            c@ == (CursorModel {
                log: lines.deep_view(),
                pos: 0,
                last_seen: start_time as int,
                orphan: None,
            }),
    {
        LogCursor { lines, pos: 0, last_seen: start_time, orphan: None }
    }

    /// The items of the log whose timestamp falls in the closed window
    /// `[start, end]` and that this cursor has not yet scanned past, in
    /// log order; behaves exactly as [`window_step`] on the model.
    pub fn get_between(&mut self, start: i64, end: i64) -> (r: Result<Vec<Item>, ParseError>)
        requires
            old(self).wf(),
        ensures
            final(self).wf(),
            result_view(r) == window_step(old(self)@, start as int, end as int).0,
            final(self)@ == window_step(old(self)@, start as int, end as int).1,
    {
        let ghost c0 = self@;
        if start < self.last_seen {
            self.pos = 0;
            self.orphan = None;
        }
        let ghost c1 = self@;
        proof {
            assert(c1 == seek_step(c0, start as int));
        }

        let ghost ws = window_step(c0, start as int, end as int);
        let mut res: Vec<Item> = Vec::new();
        let taken = self.orphan.take();
        match taken {
            Some(o) => {
                if start <= o.ts && o.ts <= end {
                    let ghost om = o@;
                    self.last_seen = o.ts;
                    res.push(o);
                    proof {
                        assert(res.deep_view() =~= seq![om]);
                        let s = scan(
                            c1.log,
                            self.pos as int,
                            self.last_seen as int,
                            start as int,
                            end as int,
                        );
                        match s.result {
                            Ok(tail) => {
                                assert(ws.0 == Ok::<Seq<ItemModel>, ParseError>(seq![om] + tail));
                            },
                            Err(e) => {
                                assert(ws.0 == Err::<Seq<ItemModel>, ParseError>(e));
                            },
                        }
                    }
                } else if o.ts > end {
                    self.orphan = Some(o);
                    proof {
                        assert(self@ == c1);
                        assert(res.deep_view() =~= Seq::<ItemModel>::empty());
                    }
                    return Ok(res);
                } else {
                    proof {
                        assert(res.deep_view() =~= Seq::<ItemModel>::empty());
                    }
                }
            },
            None => {},
        }

        // `res` now holds the emitted orphan, if any; the scan appends
        // to it from the current position.
        let ghost pre = res.deep_view();
        let ghost scan_pos = self.pos as int;
        let ghost scan_ls = self.last_seen as int;
        let ghost mut emitted: Seq<ItemModel> = Seq::empty();
        proof {
            let full = scan(c1.log, scan_pos, scan_ls, start as int, end as int);
            assert(ws.1 == (CursorModel {
                log: c1.log,
                pos: full.pos,
                last_seen: full.last_seen,
                orphan: full.orphan,
            }));
            match full.result {
                Ok(tail) => {
                    assert(Seq::<ItemModel>::empty() + tail =~= tail);
                    if pre.len() > 0 {
                        assert(pre + tail =~= seq![pre[0]] + tail);
                    }
                    assert(ws.0 == Ok::<Seq<ItemModel>, ParseError>(pre + tail));
                },
                Err(e) => {
                    assert(ws.0 == Err::<Seq<ItemModel>, ParseError>(e));
                },
            }
        }

        while self.pos < self.lines.len()
            invariant
                self.wf(),
                self.lines.deep_view() == c1.log,
                self.orphan is None,
                scan_pos <= self.pos as int,
                res.deep_view() == pre + emitted,
                c0 == old(self)@,
                ws == window_step(c0, start as int, end as int),
                ({
                    let full = scan(c1.log, scan_pos, scan_ls, start as int, end as int);
                    let rest = scan(
                        c1.log,
                        self.pos as int,
                        self.last_seen as int,
                        start as int,
                        end as int,
                    );
                    full.pos == rest.pos && full.last_seen == rest.last_seen && full.orphan
                        == rest.orphan && (match rest.result {
                        Ok(tail) => full.result == Ok::<Seq<ItemModel>, ParseError>(emitted + tail),
                        Err(e) => full.result == Err::<Seq<ItemModel>, ParseError>(e),
                    }) && (ws.1 == (CursorModel {
                        log: c1.log,
                        pos: full.pos,
                        last_seen: full.last_seen,
                        orphan: full.orphan,
                    })) && (match full.result {
                        Ok(all) => ws.0 == Ok::<Seq<ItemModel>, ParseError>(pre + all),
                        Err(e) => ws.0 == Err::<Seq<ItemModel>, ParseError>(e),
                    })
                }),
            decreases self.lines.len() - self.pos,
        {
            let ghost rest_before = scan(
                c1.log,
                self.pos as int,
                self.last_seen as int,
                start as int,
                end as int,
            );
            proof {
                assert(c1.log[self.pos as int] == self.lines[self.pos as int]@);
            }
            let parsed = parse_line(self.lines[self.pos].as_str());
            self.pos = self.pos + 1;
            match parsed {
                Err(e) => {
                    proof {
                        let full = scan(c1.log, scan_pos, scan_ls, start as int, end as int);
                        assert(rest_before.result == Err::<Seq<ItemModel>, ParseError>(e));
                        assert(full.result == Err::<Seq<ItemModel>, ParseError>(e));
                        assert(ws.0 == Err::<Seq<ItemModel>, ParseError>(e));
                        assert(self@ == ws.1);
                    }
                    return Err(e);
                },
                Ok(item) => {
                    let ghost item_model = item@;
                    self.last_seen = item.ts;
                    if item.ts < start {
                        // discarded: it belongs to a window already passed
                    } else if item.ts > end {
                        self.orphan = Some(item);
                        proof {
                            let full = scan(c1.log, scan_pos, scan_ls, start as int, end as int);
                            assert(rest_before.result == Ok::<Seq<ItemModel>, ParseError>(
                                Seq::empty(),
                            ));
                            assert(emitted + Seq::<ItemModel>::empty() =~= emitted);
                            assert(full.result == Ok::<Seq<ItemModel>, ParseError>(emitted));
                            assert(ws.0 == Ok::<Seq<ItemModel>, ParseError>(pre + emitted));
                            assert(self@ == ws.1);
                        }
                        return Ok(res);
                    } else {
                        let ghost old_dv = res.deep_view();
                        let ghost emitted_old = emitted;
                        res.push(item);
                        proof {
                            emitted = emitted_old.push(item_model);
                            assert(res.deep_view() =~= old_dv.push(item_model));
                            assert(old_dv.push(item_model) =~= pre + emitted);
                            let rest_after = scan(
                                c1.log,
                                self.pos as int,
                                self.last_seen as int,
                                start as int,
                                end as int,
                            );
                            match rest_after.result {
                                Ok(tail) => {
                                    assert(rest_before.result == Ok::<Seq<ItemModel>, ParseError>(
                                        seq![item_model] + tail,
                                    ));
                                    assert(emitted_old + (seq![item_model] + tail) =~= emitted
                                        + tail);
                                },
                                Err(_) => {},
                            }
                        }
                    }
                },
            }
        }
        proof {
            let full = scan(c1.log, scan_pos, scan_ls, start as int, end as int);
            let rest = scan(
                c1.log,
                self.pos as int,
                self.last_seen as int,
                start as int,
                end as int,
            );
            assert(rest.result == Ok::<Seq<ItemModel>, ParseError>(Seq::empty()));
            assert(emitted + Seq::<ItemModel>::empty() =~= emitted);
            assert(full.result == Ok::<Seq<ItemModel>, ParseError>(emitted));
            assert(ws.0 == Ok::<Seq<ItemModel>, ParseError>(pre + emitted));
            assert(self@ == ws.1);
        }
        Ok(res)
    }

    /// How many lines of the log the cursor has consumed so far; a
    /// touching follow-up window never re-reads one of them.
    pub fn lines_read(&self) -> (n: usize)
        ensures
            n as int == self@.pos,
    {
        self.pos
    }
}

/// Every line of the log parses.
pub open spec fn all_parse(log: Seq<Seq<char>>) -> bool {
    forall|i: int| 0 <= i < log.len() ==> parse_line_spec(log[i]) is Some
}

/// The item line `i` denotes (meaningful only where the line parses).
pub open spec fn item_at(log: Seq<Seq<char>>, i: int) -> ItemModel {
    parse_line_spec(log[i]).unwrap()
}

/// The timestamp of line `i`.
pub open spec fn ts_at(log: Seq<Seq<char>>, i: int) -> int {
    item_at(log, i).ts
}

/// All items of the log, in log order.
pub open spec fn items_of(log: Seq<Seq<char>>) -> Seq<ItemModel> {
    Seq::new(log.len(), |i: int| item_at(log, i))
}

/// The log's timestamps never decrease (the append-only recording
/// guarantee).
pub open spec fn sorted_log(log: Seq<Seq<char>>) -> bool {
    forall|i: int, j: int| 0 <= i < j < log.len() ==> ts_at(log, i) <= ts_at(log, j)
}

/// The log's timestamps strictly increase.
pub open spec fn strictly_sorted_log(log: Seq<Seq<char>>) -> bool {
    forall|i: int, j: int| 0 <= i < j < log.len() ==> ts_at(log, i) < ts_at(log, j)
}

/// The workhorse: on a log whose lines all parse, a scan whose suffix
/// splits at `a` (first line not before `start`) and `b` (first line
/// past `end`) discards `[pos, a)`, emits exactly `[a, b)`, and stashes
/// line `b` as the orphan if it exists.
pub proof fn lemma_scan_segment(
    log: Seq<Seq<char>>,
    pos: int,
    ls: int,
    start: int,
    end: int,
    a: int,
    b: int,
)
    requires
        0 <= pos <= a <= b <= log.len(),
        forall|i: int| pos <= i < log.len() ==> parse_line_spec(log[i]) is Some,
        forall|i: int| pos <= i < a ==> #[trigger] ts_at(log, i) < start,
        forall|i: int| a <= i < b ==> start <= #[trigger] ts_at(log, i) <= end,
        b < log.len() ==> start <= ts_at(log, b) && ts_at(log, b) > end,
    ensures
        scan(log, pos, ls, start, end).result == Ok::<Seq<ItemModel>, ParseError>(
            items_of(log).subrange(a, b),
        ),
        b < log.len() ==> scan(log, pos, ls, start, end) == (ScanOut {
            result: Ok::<Seq<ItemModel>, ParseError>(items_of(log).subrange(a, b)),
            pos: b + 1,
            last_seen: ts_at(log, b),
            orphan: Some(item_at(log, b)),
        }),
        b == log.len() ==> scan(log, pos, ls, start, end) == (ScanOut {
            result: Ok::<Seq<ItemModel>, ParseError>(items_of(log).subrange(a, b)),
            pos: b,
            last_seen: if pos < b {
                ts_at(log, b - 1)
            } else {
                ls
            },
            orphan: None::<ItemModel>,
        }),
    decreases b - pos,
{
    if pos == b {
        if b < log.len() {
            assert(items_of(log).subrange(a, b) =~= Seq::<ItemModel>::empty());
        } else {
            assert(items_of(log).subrange(a, b) =~= Seq::<ItemModel>::empty());
        }
    } else if pos < a {
        lemma_scan_segment(log, pos + 1, ts_at(log, pos), start, end, a, b);
    } else {
        // a <= pos < b: this line is emitted
        lemma_scan_segment(log, pos + 1, ts_at(log, pos), start, end, pos + 1, b);
        assert(seq![item_at(log, pos)] + items_of(log).subrange(pos + 1, b) =~= items_of(
            log,
        ).subrange(pos, b));
        assert(items_of(log).subrange(pos, b) =~= items_of(log).subrange(a, b));
    }
}

/// Completeness without duplication: one query on a fresh cursor whose
/// window covers the whole log returns every item, in log order, and
/// consumes every line exactly once.
pub proof fn lemma_fresh_full_window(c: CursorModel, start: int, end: int)
    requires
        c.pos == 0,
        c.orphan is None,
        all_parse(c.log),
        forall|i: int| 0 <= i < c.log.len() ==> start <= #[trigger] ts_at(c.log, i) <= end,
    ensures
        window_step(c, start, end).0 == Ok::<Seq<ItemModel>, ParseError>(items_of(c.log)),
        window_step(c, start, end).1.pos == c.log.len(),
        window_step(c, start, end).1.orphan is None,
{
    let c1 = seek_step(c, start);
    assert(c1.pos == 0 && c1.orphan is None);
    lemma_scan_segment(c1.log, 0, c1.last_seen, start, end, 0, c1.log.len() as int);
    assert(items_of(c.log).subrange(0, c.log.len() as int) =~= items_of(c.log));
}

/// Amortized no-rescan: when the log splits into a window holding items
/// `0..=k` and a second window starting exactly at the stashed item
/// `k + 1`, the two queries partition the items, and together they read
/// each line exactly once (the second resumes at the lookahead; the
/// positions advance monotonically from `0` to the log's length).
pub proof fn lemma_touching_windows_no_rescan(
    c: CursorModel,
    start1: int,
    end1: int,
    end2: int,
    k: int,
)
    requires
        c.pos == 0,
        c.orphan is None,
        all_parse(c.log),
        sorted_log(c.log),
        0 <= k,
        k + 1 < c.log.len(),
        forall|i: int| 0 <= i <= k ==> start1 <= #[trigger] ts_at(c.log, i) <= end1,
        end1 < ts_at(c.log, k + 1),
        forall|i: int| k < i < c.log.len() ==> #[trigger] ts_at(c.log, i) <= end2,
    ensures
        ({
            let (r1, c1) = window_step(c, start1, end1);
            let (r2, c2) = window_step(c1, ts_at(c.log, k + 1), end2);
            r1 == Ok::<Seq<ItemModel>, ParseError>(items_of(c.log).subrange(0, k + 1))
                && r2 == Ok::<Seq<ItemModel>, ParseError>(
                items_of(c.log).subrange(k + 1, c.log.len() as int),
            ) && r1.unwrap() + r2.unwrap() == items_of(c.log) && c1.pos == k + 2 && c2.pos
                == c.log.len() && c1.log == c.log && c2.log == c.log
        }),
{
    let log = c.log;
    let n = log.len() as int;
    let c1s = seek_step(c, start1);
    assert(c1s.pos == 0 && c1s.orphan is None);
    assert(start1 <= ts_at(log, 0));
    assert(ts_at(log, 0) <= ts_at(log, k + 1));
    lemma_scan_segment(log, 0, c1s.last_seen, start1, end1, 0, k + 1);
    let (r1, c1) = window_step(c, start1, end1);
    assert(r1 == Ok::<Seq<ItemModel>, ParseError>(items_of(log).subrange(0, k + 1)));
    assert(c1.last_seen == ts_at(log, k + 1));
    assert(c1.orphan == Some(item_at(log, k + 1)));

    // second call: no rewind, the orphan is emitted, the scan resumes
    let start2 = ts_at(log, k + 1);
    let c2s = seek_step(c1, start2);
    assert(c2s == c1);
    assert(forall|i: int| k + 2 <= i < n ==> start2 <= #[trigger] ts_at(log, i));
    lemma_scan_segment(log, k + 2, start2, start2, end2, k + 2, n);
    let (r2, c2) = window_step(c1, start2, end2);
    assert(seq![item_at(log, k + 1)] + items_of(log).subrange(k + 2, n) =~= items_of(
        log,
    ).subrange(k + 1, n));
    assert(r2 == Ok::<Seq<ItemModel>, ParseError>(items_of(log).subrange(k + 1, n)));
    assert(items_of(log).subrange(0, k + 1) + items_of(log).subrange(k + 1, n) =~= items_of(log));
}

/// Any two touching, non-overlapping windows that together cover the
/// log partition its items: the concatenation of the two calls' results
/// equals the single full-window call's result, wherever between the
/// two items the split falls.  (When the second window starts exactly
/// at the stashed item the cursor also resumes without re-reading; see
/// [`lemma_touching_windows_no_rescan`].)
pub proof fn lemma_touching_windows_concat(
    c: CursorModel,
    start1: int,
    end1: int,
    start2: int,
    end2: int,
    k: int,
)
    requires
        c.pos == 0,
        c.orphan is None,
        all_parse(c.log),
        sorted_log(c.log),
        0 <= k,
        k + 1 < c.log.len(),
        forall|i: int| 0 <= i <= k ==> start1 <= #[trigger] ts_at(c.log, i) <= end1,
        end1 < start2 <= ts_at(c.log, k + 1),
        forall|i: int| k < i < c.log.len() ==> #[trigger] ts_at(c.log, i) <= end2,
    ensures
        ({
            let (r1, c1) = window_step(c, start1, end1);
            let (r2, c2) = window_step(c1, start2, end2);
            r1 == Ok::<Seq<ItemModel>, ParseError>(items_of(c.log).subrange(0, k + 1)) && r2
                == Ok::<Seq<ItemModel>, ParseError>(
                items_of(c.log).subrange(k + 1, c.log.len() as int),
            ) && r1.unwrap() + r2.unwrap() == items_of(c.log)
        }),
{
    let log = c.log;
    let n = log.len() as int;
    let c1s = seek_step(c, start1);
    assert(c1s.pos == 0 && c1s.orphan is None);
    assert(start1 <= ts_at(log, 0));
    assert(ts_at(log, 0) <= ts_at(log, k + 1));
    lemma_scan_segment(log, 0, c1s.last_seen, start1, end1, 0, k + 1);
    let (r1, c1) = window_step(c, start1, end1);
    assert(r1 == Ok::<Seq<ItemModel>, ParseError>(items_of(log).subrange(0, k + 1)));
    assert(c1.last_seen == ts_at(log, k + 1));
    assert(c1.orphan == Some(item_at(log, k + 1)));

    let (r2, c2) = window_step(c1, start2, end2);
    if start2 < ts_at(log, k + 1) {
        // the second window opens before the stashed item: the cursor
        // rewinds and scans from the top
        let c2s = seek_step(c1, start2);
        assert(c2s.pos == 0 && c2s.orphan is None);
        assert(forall|i: int| 0 <= i < k + 1 ==> #[trigger] ts_at(log, i) < start2);
        assert(forall|i: int|
            k + 1 <= i < n ==> start2 <= #[trigger] ts_at(log, i) && ts_at(log, i) <= end2);
        lemma_scan_segment(log, 0, c2s.last_seen, start2, end2, k + 1, n);
    } else {
        // the second window starts exactly at the stashed item, which
        // is emitted and followed by the remaining lines
        let c2s = seek_step(c1, start2);
        assert(c2s == c1);
        assert(forall|i: int| k + 2 <= i < n ==> start2 <= #[trigger] ts_at(log, i));
        lemma_scan_segment(log, k + 2, start2, start2, end2, k + 2, n);
        assert(seq![item_at(log, k + 1)] + items_of(log).subrange(k + 2, n) =~= items_of(
            log,
        ).subrange(k + 1, n));
    }
    assert(r2 == Ok::<Seq<ItemModel>, ParseError>(items_of(log).subrange(k + 1, n)));
    assert(items_of(log).subrange(0, k + 1) + items_of(log).subrange(k + 1, n) =~= items_of(log));
}

/// Boundary duplication is correct by design: with a shared closed
/// boundary at item `k`, the first query emits items `0..=k` and the
/// second rewinds and emits items `k..`, so the boundary item stands in
/// both results.
pub proof fn lemma_shared_boundary_duplicates(c: CursorModel, start1: int, end2: int, k: int)
    requires
        c.pos == 0,
        c.orphan is None,
        all_parse(c.log),
        strictly_sorted_log(c.log),
        0 <= k,
        k + 1 < c.log.len(),
        start1 <= ts_at(c.log, 0),
        forall|i: int| 0 <= i < c.log.len() ==> #[trigger] ts_at(c.log, i) <= end2,
    ensures
        ({
            let (r1, c1) = window_step(c, start1, ts_at(c.log, k));
            let (r2, c2) = window_step(c1, ts_at(c.log, k), end2);
            r1 == Ok::<Seq<ItemModel>, ParseError>(items_of(c.log).subrange(0, k + 1)) && r2
                == Ok::<Seq<ItemModel>, ParseError>(
                items_of(c.log).subrange(k, c.log.len() as int),
            ) && r1.unwrap()[k] == item_at(c.log, k) && r2.unwrap()[0] == item_at(c.log, k)
        }),
{
    let log = c.log;
    let n = log.len() as int;
    let tk = ts_at(log, k);
    let c1s = seek_step(c, start1);
    assert(c1s.pos == 0 && c1s.orphan is None);
    assert(forall|i: int| 0 <= i <= k ==> start1 <= #[trigger] ts_at(log, i) <= tk);
    lemma_scan_segment(log, 0, c1s.last_seen, start1, tk, 0, k + 1);
    let (r1, c1) = window_step(c, start1, tk);
    assert(r1 == Ok::<Seq<ItemModel>, ParseError>(items_of(log).subrange(0, k + 1)));
    assert(c1.last_seen == ts_at(log, k + 1));

    // second call: the boundary lies before the last seen instant, so
    // the cursor rewinds and scans from the top
    let c2s = seek_step(c1, tk);
    assert(c2s.pos == 0 && c2s.orphan is None);
    assert(forall|i: int| 0 <= i < k ==> #[trigger] ts_at(log, i) < tk);
    lemma_scan_segment(log, 0, c2s.last_seen, tk, end2, k, n);
    let (r2, c2) = window_step(c1, tk, end2);
    assert(r2 == Ok::<Seq<ItemModel>, ParseError>(items_of(log).subrange(k, n)));
}

/// Whether an item's timestamp falls in the closed window.
pub open spec fn in_window(it: ItemModel, start: int, end: int) -> bool {
    start <= it.ts && it.ts <= end
}

proof fn lemma_filter_window(s: Seq<ItemModel>, start: int, end: int, a: int, b: int)
    requires
        0 <= a <= b <= s.len(),
        forall|i: int| 0 <= i < a ==> (#[trigger] s[i]).ts < start,
        forall|i: int| a <= i < b ==> in_window(#[trigger] s[i], start, end),
        forall|i: int| b <= i < s.len() ==> (#[trigger] s[i]).ts > end,
    ensures
        s.filter(|it: ItemModel| in_window(it, start, end)) == s.subrange(a, b),
    decreases s.len(),
{
    reveal(Seq::filter);
    let pred = (|it: ItemModel| in_window(it, start, end));
    if s.len() == 0 {
        assert(s.filter(pred) =~= s.subrange(a, b));
    } else {
        let d = s.drop_last();
        let n = s.len() as int;
        assert(forall|i: int| 0 <= i < d.len() ==> #[trigger] d[i] == s[i]);
        if b <= n - 1 {
            lemma_filter_window(d, start, end, a, b);
            assert(!pred(s.last()));
            assert(d.subrange(a, b) =~= s.subrange(a, b));
        } else if a <= n - 1 {
            // b is the length: the last item lies in the window
            lemma_filter_window(d, start, end, a, n - 1);
            assert(pred(s.last()));
            assert(d.subrange(a, n - 1).push(s.last()) =~= s.subrange(a, b));
        } else {
            // a and b both equal the length: everything lies before the
            // window
            lemma_filter_window(d, start, end, n - 1, n - 1);
            assert(!pred(s.last()));
            assert(d.subrange(n - 1, n - 1) =~= s.subrange(a, b));
        }
    }
}

/// Backward seek: whatever state the cursor is in, a window that starts
/// before its last seen instant rewinds and returns exactly the log's
/// items inside the window (`a` and `b` delimit them, and the result is
/// precisely the in-window filter of the whole log).
pub proof fn lemma_backward_window(c: CursorModel, start: int, end: int, a: int, b: int)
    requires
        all_parse(c.log),
        sorted_log(c.log),
        start < c.last_seen,
        0 <= a <= b <= c.log.len(),
        forall|i: int| 0 <= i < a ==> #[trigger] ts_at(c.log, i) < start,
        forall|i: int| a <= i < b ==> start <= #[trigger] ts_at(c.log, i) <= end,
        b < c.log.len() ==> start <= ts_at(c.log, b) && ts_at(c.log, b) > end,
    ensures
        window_step(c, start, end).0 == Ok::<Seq<ItemModel>, ParseError>(
            items_of(c.log).subrange(a, b),
        ),
        window_step(c, start, end).0 == Ok::<Seq<ItemModel>, ParseError>(
            items_of(c.log).filter(|it: ItemModel| in_window(it, start, end)),
        ),
{
    let c1 = seek_step(c, start);
    assert(c1.pos == 0 && c1.orphan is None);
    lemma_scan_segment(c1.log, 0, c1.last_seen, start, end, a, b);
    let items = items_of(c.log);
    assert(forall|i: int| 0 <= i < items.len() ==> (#[trigger] items[i]).ts == ts_at(c.log, i));
    assert forall|i: int| b <= i < items.len() implies (#[trigger] items[i]).ts > end by {
        if i > b {
            assert(ts_at(c.log, b) <= ts_at(c.log, i));
        }
    }
    lemma_filter_window(items, start, end, a, b);
}

} // verus!
