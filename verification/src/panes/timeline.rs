//! TimelinePane: overview histogram of record arrival over time.
//!
//! Each bar is one column, split into stacked bands so that errors, warnings,
//! info and debug all stay visible even when one severity dwarfs the others.
//! Each band is normalised against its own peak across the row, not against
//! the overall total.

use vstd::prelude::*;
use vstd::string::*;

use crate::clock;
use crate::engine::histogram::{Bin, Histogram};
use crate::engine::record::severity;
use crate::number;
use crate::panes;
use crate::panes::{Row, RowView, Span, SpanView};
use crate::theme::{Style, Theme};

verus! {

/// Steps of a bar above its empty state.
pub const BAR_STEPS: u64 = 7;

/// The character of a bar of `n` steps.
pub open spec fn bar_char(n: int) -> char {
    if n <= 0 {
        ' '
    } else if n == 1 {
        '▁'
    } else if n == 2 {
        '▂'
    } else if n == 3 {
        '▃'
    } else if n == 4 {
        '▄'
    } else if n == 5 {
        '▅'
    } else if n == 6 {
        '▆'
    } else {
        '▇'
    }
}

fn bar(n: u64) -> (r: char)
    ensures
        r == bar_char(n as int),
{
    match n {
        0 => ' ',
        1 => '▁',
        2 => '▂',
        3 => '▃',
        4 => '▄',
        5 => '▅',
        6 => '▆',
        _ => '▇',
    }
}

/// A point in time to the second, or a dash where there is none.
pub open spec fn short_text(micros: i64) -> Seq<char> {
    if micros == i64::MIN || micros == 0 {
        "—"@
    } else {
        clock::stamp(micros as int / 1_000_000, ' ')
    }
}

pub fn format_micros_short(micros: i64) -> (r: String)
    ensures
        r@ == short_text(micros),
{
    if micros == i64::MIN || micros == 0 {
        return "—".to_owned();
    }
    let (secs, _) = clock::split_seconds(micros);
    let mut out: String = String::new();
    clock::push_stamp(&mut out, secs, ' ');
    assert(out@ =~= short_text(micros));
    out
}

/// A band of the timeline, top to bottom.
#[derive(Debug, Clone, Copy, PartialEq, Eq, Structural)]
pub enum Band {
    /// Errors and fatal errors.
    Error,
    Warn,
    Info,
    /// Debug and trace.
    Debug,
}

/// Records of a bin that count for a band.
pub open spec fn count_in(bin: Bin, band: Band) -> int {
    match band {
        Band::Error => bin.error + bin.fatal,
        Band::Warn => bin.warn as int,
        Band::Info => bin.info as int,
        Band::Debug => bin.debug + bin.trace,
    }
}

fn count(bin: &Bin, band: Band) -> (r: u128)
    ensures
        r == count_in(*bin, band),
        r <= 2 * u64::MAX,
{
    match band {
        Band::Error => bin.error as u128 + bin.fatal as u128,
        Band::Warn => bin.warn as u128,
        Band::Info => bin.info as u128,
        Band::Debug => bin.debug as u128 + bin.trace as u128,
    }
}

/// The highest count of a band in a row of bins, and at least one.
pub open spec fn peak(bins: Seq<Bin>, band: Band) -> int
    decreases bins.len(),
{
    if bins.len() == 0 {
        1
    } else {
        let before = peak(bins.drop_last(), band);
        let n = count_in(bins.last(), band);
        if n > before {
            n
        } else {
            before
        }
    }
}

fn find_peak(bins: &Vec<Bin>, band: Band) -> (r: u128)
    ensures
        r == peak(bins@, band),
        1 <= r <= 2 * u64::MAX,
{
    let mut best: u128 = 1;
    let mut i: usize = 0;
    assert(bins@.take(0) =~= Seq::empty());
    while i < bins.len()
        invariant
            i <= bins@.len(),
            best == peak(bins@.take(i as int), band),
            1 <= best <= 2 * u64::MAX,
        decreases bins@.len() - i,
    {
        assert(bins@.take(i + 1).drop_last() =~= bins@.take(i as int));
        let n: u128 = count(&bins[i], band);
        if n > best {
            best = n;
        }
        i = i + 1;
    }
    assert(bins@.take(bins@.len() as int) =~= bins@);
    best
}

/// How many steps a count takes of a peak.
pub open spec fn steps(count: int, peak: int) -> int {
    let n = count * BAR_STEPS / peak;
    if n > BAR_STEPS {
        BAR_STEPS as int
    } else {
        n
    }
}

/// Which band a row shows. The top row is always the errors; with less room
/// the less urgent bands drop out, and with more the debug band stays at the
/// bottom.
pub open spec fn band_of(row: int, rows: int) -> Option<Band> {
    if row == 0 {
        Some(Band::Error)
    } else if row == 1 && rows >= 2 {
        Some(Band::Warn)
    } else if row == 2 && rows >= 3 {
        Some(Band::Info)
    } else if row == rows - 1 && rows >= 4 {
        Some(Band::Debug)
    } else {
        None
    }
}

/// The severity that colours a band.
pub open spec fn band_severity(band: Band) -> u8 {
    match band {
        Band::Error => severity::ERROR,
        Band::Warn => severity::WARN,
        Band::Info => severity::INFO,
        Band::Debug => severity::DEBUG,
    }
}

/// A bar's style, reversed where the scrub cursor stands on it.
pub open spec fn bar_style(style: Style, i: int, scrub: Option<usize>) -> Style {
    if scrub is Some && scrub->0 == i {
        style.with_reversed()
    } else {
        style
    }
}

/// One row of bars.
pub open spec fn bar_row(
    bins: Seq<Bin>,
    band: Option<Band>,
    theme: Theme,
    scrub: Option<usize>,
) -> RowView {
    panes::plain_row(
        Seq::new(
            bins.len(),
            |i: int|
                match band {
                    Some(b) => SpanView {
                        text: seq![bar_char(steps(count_in(bins[i], b), peak(bins, b)))],
                        style: bar_style(theme.bar(band_severity(b)), i, scrub),
                    },
                    None => SpanView {
                        text: seq![' '],
                        style: bar_style(Style::plain(), i, scrub),
                    },
                },
        ),
    )
}

fn put_bar_row(bins: &Vec<Bin>, band: Option<Band>, theme: Theme, scrub: Option<usize>) -> (r: Row)
    ensures
        r@ == bar_row(bins@, band, theme, scrub),
{
    let top: u128 = match band {
        Some(b) => find_peak(bins, b),
        None => 1,
    };
    let style: Style = match band {
        Some(Band::Error) => theme.histogram_bar(severity::ERROR),
        Some(Band::Warn) => theme.histogram_bar(severity::WARN),
        Some(Band::Info) => theme.histogram_bar(severity::INFO),
        Some(Band::Debug) => theme.histogram_bar(severity::DEBUG),
        None => Style::new(),
    };
    let mut spans: Vec<Span> = Vec::new();
    let mut i: usize = 0;
    while i < bins.len()
        invariant
            i <= bins@.len(),
            spans@.len() == i,
            1 <= top <= 2 * u64::MAX,
            match band {
                Some(b) => top == peak(bins@, b) && style == theme.bar(band_severity(b)),
                None => style == Style::plain(),
            },
            forall|k: int|
                0 <= k < i ==> (#[trigger] spans@[k])@ == bar_row(bins@, band, theme, scrub).spans[k],
        decreases bins@.len() - i,
    {
        let c: char = match band {
            Some(b) => {
                let n: u128 = count(&bins[i], b);
                assert(n * BAR_STEPS <= 14 * u64::MAX);
                let frac: u128 = n * (BAR_STEPS as u128) / top;
                if frac > BAR_STEPS as u128 {
                    bar(BAR_STEPS)
                } else {
                    bar(frac as u64)
                }
            },
            None => ' ',
        };
        let mut text: String = String::new();
        text.push(c);
        assert(text@ =~= seq![c]);
        let under_cursor: bool = match scrub {
            Some(at) => at == i,
            None => false,
        };
        spans.push(
            Span {
                text,
                style: if under_cursor {
                    style.reversed()
                } else {
                    style
                },
            },
        );
        i = i + 1;
    }
    let r = Row { spans, style: Style::new() };
    assert(r@.spans =~= bar_row(bins@, band, theme, scrub).spans);
    r
}

/// The label row: the first and the last point in time, and what is not on the
/// axis.
pub open spec fn label_row(t_min: i64, t_max: i64, untimed: u64) -> RowView {
    let dim = Style::plain().with_dim();
    let gap = SpanView { text: " "@, style: Style::plain() };
    let center = if untimed > 0 {
        " · "@ + number::digits(untimed as int) + " untimed"@
    } else {
        Seq::empty()
    };
    panes::plain_row(
        seq![
            SpanView { text: short_text(t_min), style: dim },
            gap,
            SpanView { text: center, style: dim },
            gap,
            SpanView { text: short_text(t_max), style: dim },
        ],
    )
}

fn put_label_row(h: &Histogram) -> (r: Row)
    ensures
        r@ == label_row(h.t_min, h.t_max, h.untimed),
{
    let dim: Style = Style::new().dim();
    let mut center: String = String::new();
    assert(center@ =~= Seq::empty());
    if h.untimed > 0 {
        center = " · ".to_owned().concat(number::decimal_text(h.untimed).as_str()).concat(
            " untimed",
        );
    }
    let mut spans: Vec<Span> = Vec::new();
    spans.push(Span { text: format_micros_short(h.t_min), style: dim });
    spans.push(Span { text: " ".to_owned(), style: Style::new() });
    spans.push(Span { text: center, style: dim });
    spans.push(Span { text: " ".to_owned(), style: Style::new() });
    spans.push(Span { text: format_micros_short(h.t_max), style: dim });
    let r = Row { spans, style: Style::new() };
    assert(r@.spans =~= label_row(h.t_min, h.t_max, h.untimed).spans);
    r
}

/// What stands in place of the bars when no record has a timestamp.
pub open spec fn empty_text(untimed: u64) -> Seq<char> {
    if untimed > 0 {
        " all "@ + number::digits(untimed as int) + " records untimed (no ts field) "@
    } else {
        " no records "@
    }
}

/// The rows of the timeline.
pub open spec fn rows(
    bins: Seq<Bin>,
    t_min: i64,
    t_max: i64,
    untimed: u64,
    width: int,
    height: int,
    theme: Theme,
    scrub: Option<usize>,
) -> Seq<RowView> {
    if width < 4 || height < 2 {
        Seq::empty()
    } else if bins.len() == 0 {
        seq![panes::single(empty_text(untimed), Style::plain().with_dim())]
    } else {
        Seq::new(
            (height - 1) as nat,
            |i: int| bar_row(bins, band_of(i, height - 1), theme, scrub),
        ).push(label_row(t_min, t_max, untimed))
    }
}

/// The rows of the timeline: bands of bars, one column per bin, and a row of
/// labels below. The column of the scrub cursor is reversed.
pub fn timeline_rows(
    h: &Histogram,
    width: u16,
    height: u16,
    theme: Theme,
    scrub: Option<usize>,
) -> (r: Vec<Row>)
    ensures
        panes::row_views(r@) == rows(
            h.bins@,
            h.t_min,
            h.t_max,
            h.untimed,
            width as int,
            height as int,
            theme,
            scrub,
        ),
{
    let ghost want = rows(
        h.bins@,
        h.t_min,
        h.t_max,
        h.untimed,
        width as int,
        height as int,
        theme,
        scrub,
    );
    let mut out: Vec<Row> = Vec::new();
    if width < 4 || height < 2 {
        assert(panes::row_views(out@) =~= want);
        return out;
    }
    if h.bins.len() == 0 {
        let message: String = if h.untimed > 0 {
            " all ".to_owned().concat(number::decimal_text(h.untimed).as_str()).concat(
                " records untimed (no ts field) ",
            )
        } else {
            " no records ".to_owned()
        };
        assert(panes::row_views(out@) =~= Seq::empty());
        panes::put_single(&mut out, message, Style::new().dim());
        assert(panes::row_views(out@) =~= want);
        return out;
    }
    let bands: u16 = height - 1;
    let mut i: u16 = 0;
    while i < bands
        invariant
            1 <= bands,
            i <= bands,
            out@.len() == i,
            forall|k: int|
                0 <= k < i ==> (#[trigger] out@[k])@ == bar_row(
                    h.bins@,
                    band_of(k, bands as int),
                    theme,
                    scrub,
                ),
        decreases bands - i,
    {
        let band: Option<Band> = if i == 0 {
            Some(Band::Error)
        } else if i == 1 {
            Some(Band::Warn)
        } else if i == 2 {
            Some(Band::Info)
        } else if i == bands - 1 {
            Some(Band::Debug)
        } else {
            None
        };
        out.push(put_bar_row(&h.bins, band, theme, scrub));
        i = i + 1;
    }
    out.push(put_label_row(h));
    assert(panes::row_views(out@) =~= want);
    out
}

proof fn lemma_peak(bins: Seq<Bin>, band: Band)
    ensures
        peak(bins, band) >= 1,
        forall|i: int| 0 <= i < bins.len() ==> count_in(#[trigger] bins[i], band) <= peak(bins, band),
    decreases bins.len(),
{
    if bins.len() > 0 {
        let prev = bins.drop_last();
        lemma_peak(prev, band);
        assert forall|i: int| 0 <= i < bins.len() implies count_in(#[trigger] bins[i], band) <= peak(
            bins,
            band,
        ) by {
            if i < prev.len() {
                assert(prev[i] == bins[i]);
            }
        }
    }
}

/// Every band is drawn to its own scale: no bar passes the top, and a band
/// with a record has a bar that reaches it.
pub proof fn law_each_band_fills_its_row(bins: Seq<Bin>, band: Band, i: int)
    requires
        0 <= i < bins.len(),
    ensures
        0 <= steps(count_in(bins[i], band), peak(bins, band)) <= BAR_STEPS,
        count_in(bins[i], band) == peak(bins, band) ==> steps(
            count_in(bins[i], band),
            peak(bins, band),
        ) == BAR_STEPS,
        count_in(bins[i], band) == 0 ==> steps(count_in(bins[i], band), peak(bins, band)) == 0,
{
    lemma_peak(bins, band);
    let n = count_in(bins[i], band);
    let p = peak(bins, band);
    assert(0 <= n * BAR_STEPS / p) by (nonlinear_arith)
        requires
            n >= 0,
            p >= 1,
    ;
    if n == p {
        vstd::arithmetic::div_mod::lemma_div_by_multiple(BAR_STEPS as int, p);
    }
}

/// A band counts the severities of its name: the top one errors and fatal
/// errors, the bottom one debug and trace.
pub proof fn law_bands_count_their_severities(bin: Bin)
    ensures
        count_in(bin, Band::Error) == bin.error + bin.fatal,
        count_in(bin, Band::Warn) == bin.warn,
        count_in(bin, Band::Info) == bin.info,
        count_in(bin, Band::Debug) == bin.debug + bin.trace,
        band_severity(Band::Error) == severity::ERROR,
        band_severity(Band::Warn) == severity::WARN,
        band_severity(Band::Info) == severity::INFO,
        band_severity(Band::Debug) == severity::DEBUG,
{
}

/// From the top the rows show errors, warnings and info, as far as there is
/// room, and with four rows of bars or more debug at the bottom; below all of
/// them stand the labels. Rows between info and debug are blank.
pub proof fn law_bands_stack_from_errors_down(
    bins: Seq<Bin>,
    t_min: i64,
    t_max: i64,
    untimed: u64,
    width: int,
    height: int,
    theme: Theme,
    scrub: Option<usize>,
    i: int,
)
    requires
        width >= 4,
        height >= 2,
        bins.len() > 0,
    ensures
        ({
            let all = rows(bins, t_min, t_max, untimed, width, height, theme, scrub);
            &&& all.len() == height
            &&& all[0] == bar_row(bins, Some(Band::Error), theme, scrub)
            &&& height >= 3 ==> all[1] == bar_row(bins, Some(Band::Warn), theme, scrub)
            &&& height >= 4 ==> all[2] == bar_row(bins, Some(Band::Info), theme, scrub)
            &&& height >= 5 ==> all[height - 2] == bar_row(bins, Some(Band::Debug), theme, scrub)
            &&& 3 <= i < height - 2 ==> all[i] == bar_row(bins, None, theme, scrub)
            &&& all[height - 1] == label_row(t_min, t_max, untimed)
        }),
{
}

/// Each bin is one column. Its bar reaches as many of seven steps as its share
/// of the band's highest count, the lower half block of that height; no record,
/// no bar. The column of the scrub cursor alone is reversed.
pub proof fn law_bar_shows_its_share(
    bins: Seq<Bin>,
    band: Band,
    theme: Theme,
    scrub: Option<usize>,
    i: int,
)
    requires
        0 <= i < bins.len(),
    ensures
        ({
            let span = bar_row(bins, Some(band), theme, scrub).spans[i];
            let n = steps(count_in(bins[i], band), peak(bins, band));
            &&& bar_row(bins, Some(band), theme, scrub).spans.len() == bins.len()
            &&& span.text.len() == 1
            &&& n == 0 ==> span.text[0] == ' '
            &&& n > 0 ==> span.text[0] as u32 == 0x2580 + n
            &&& 0 <= n <= 7
            &&& n * peak(bins, band) <= 7 * count_in(bins[i], band) < (n + 1) * peak(bins, band)
            &&& span.style == (if scrub is Some && scrub->0 == i {
                theme.bar(band_severity(band)).with_reversed()
            } else {
                theme.bar(band_severity(band))
            })
        }),
        forall|k: int|
            0 <= k < bins.len() ==> count_in(#[trigger] bins[k], band) <= peak(bins, band),
        peak(bins, band) == 1 || exists|k: int|
            0 <= k < bins.len() && count_in(#[trigger] bins[k], band) == peak(bins, band),
{
    law_each_band_fills_its_row(bins, band, i);
    lemma_peak(bins, band);
    lemma_peak_is_met(bins, band);
    let c = count_in(bins[i], band);
    let p = peak(bins, band);
    let q = c * BAR_STEPS / p;
    assert(q * p <= c * 7 < (q + 1) * p) by (nonlinear_arith)
        requires
            p >= 1,
            q == c * 7 / p,
    ;
    assert(q <= 7) by (nonlinear_arith)
        requires
            p >= 1,
            0 <= c <= p,
            q == c * 7 / p,
    ;
}

proof fn lemma_peak_is_met(bins: Seq<Bin>, band: Band)
    ensures
        peak(bins, band) == 1 || exists|k: int|
            0 <= k < bins.len() && count_in(#[trigger] bins[k], band) == peak(bins, band),
    decreases bins.len(),
{
    if bins.len() > 0 {
        let prev = bins.drop_last();
        lemma_peak_is_met(prev, band);
        if peak(bins, band) == peak(prev, band) && peak(prev, band) != 1 {
            let k = choose|k: int|
                0 <= k < prev.len() && count_in(#[trigger] prev[k], band) == peak(prev, band);
            assert(bins[k] == prev[k]);
        } else if peak(bins, band) != 1 {
            assert(count_in(bins[bins.len() - 1], band) == peak(bins, band));
        }
    }
}

/// A bar of one to seven steps is the block of that height, and an empty bar
/// is a blank.
pub proof fn law_bar_grows_by_steps(n: int)
    ensures
        n <= 0 ==> bar_char(n) == ' ',
        1 <= n <= 7 ==> bar_char(n) as int == '▁' as int + n - 1,
        n > 7 ==> bar_char(n) == '▇',
{
}

/// The label row names the two ends of the axis, the first at the left, and
/// between them how many records are not on it.
pub proof fn law_labels_name_both_ends(t_min: i64, t_max: i64, untimed: u64)
    ensures
        ({
            let spans = label_row(t_min, t_max, untimed).spans;
            &&& spans.len() == 5
            &&& t_min != i64::MIN && t_min != 0 ==> spans[0].text == clock::stamp(
                t_min as int / 1_000_000,
                ' ',
            )
            &&& t_max != i64::MIN && t_max != 0 ==> spans[4].text == clock::stamp(
                t_max as int / 1_000_000,
                ' ',
            )
            &&& untimed == 0 ==> spans[2].text.len() == 0
            &&& untimed > 0 ==> spans[2].text == " · "@ + number::digits(untimed as int)
                + " untimed"@
        }),
{
}

/// A timeline fills its height: a row of bars for each band from the top, and
/// the labels below them.
pub proof fn law_timeline_fills_its_height(
    bins: Seq<Bin>,
    t_min: i64,
    t_max: i64,
    untimed: u64,
    width: int,
    height: int,
    theme: Theme,
    scrub: Option<usize>,
    i: int,
)
    requires
        bins.len() > 0,
        width >= 4,
        height >= 2,
    ensures
        ({
            let shown = rows(bins, t_min, t_max, untimed, width, height, theme, scrub);
            &&& shown.len() == height
            &&& shown.last() == label_row(t_min, t_max, untimed)
            &&& 0 <= i < height - 1 ==> shown[i] == bar_row(
                bins,
                band_of(i, height - 1),
                theme,
                scrub,
            )
        }),
{
}

} // verus!
