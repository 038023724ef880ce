//! Styled report text: a report is a sequence of spans, each a piece of text
//! (or an amount the renderer prints in decimal) with a style.
use vstd::prelude::*;

verus! {

/// How a span is shown on a terminal.
#[derive(Clone, Copy, PartialEq, Eq, Debug, Structural)]
pub enum Style {
    Plain,
    Bold,
    /// Section headings: bold and underlined.
    BoldUnderline,
    /// Words such as "files", "lines" and keyword names: italic, in the
    /// colour (181, 169, 138).
    Keyword,
    /// The colours of the first four languages of the overview.
    Cyan,
    Magenta,
    Yellow,
    Fourth,
    /// The colour of the "others" entry of the overview.
    Others,
}

/// What a span holds, in the model.
pub enum PieceView {
    Text(Seq<char>),
    /// `part / whole * 100`, printed with two decimals.
    Percent { part: usize, whole: usize },
    /// `value / divisor`, printed with one decimal.
    Amount { value: usize, divisor: usize },
    /// A rule of dashes: `base` plus the lengths of the shortest decimal
    /// forms of `total / total_divisor` and `average / average_divisor`.
    Rule { base: usize, total: usize, total_divisor: usize, average: usize, average_divisor: usize },
}

/// What a span holds.
pub enum Piece {
    Text(String),
    Percent { part: usize, whole: usize },
    Amount { value: usize, divisor: usize },
    Rule { base: usize, total: usize, total_divisor: usize, average: usize, average_divisor: usize },
}

impl View for Piece {
    type V = PieceView;

    open spec fn view(&self) -> PieceView {
        match self {
            Piece::Text(s) => PieceView::Text(s@),
            Piece::Percent { part, whole } => PieceView::Percent { part: *part, whole: *whole },
            Piece::Amount { value, divisor } => PieceView::Amount { value: *value, divisor: *divisor },
            Piece::Rule { base, total, total_divisor, average, average_divisor } => PieceView::Rule {
                base: *base,
                total: *total,
                total_divisor: *total_divisor,
                average: *average,
                average_divisor: *average_divisor,
            },
        }
    }
}

/// A piece of the report with its style.
pub struct Span {
    pub piece: Piece,
    pub style: Style,
}

pub type SpanView = (PieceView, Style);

impl View for Span {
    type V = SpanView;

    open spec fn view(&self) -> SpanView {
        (self.piece@, self.style)
    }
}

/// The model of a report.
pub open spec fn doc_view(d: Seq<Span>) -> Seq<SpanView> {
    d.map_values(|s: Span| s@)
}

pub open spec fn styled(s: Seq<char>, style: Style) -> SpanView {
    (PieceView::Text(s), style)
}

pub open spec fn txt(s: Seq<char>) -> SpanView {
    styled(s, Style::Plain)
}

/// `n` blanks.
pub open spec fn spaces(n: nat) -> Seq<char> {
    Seq::new(n, |i: int| ' ')
}

pub open spec fn digit_char(d: nat) -> char {
    if d == 0 {
        '0'
    } else if d == 1 {
        '1'
    } else if d == 2 {
        '2'
    } else if d == 3 {
        '3'
    } else if d == 4 {
        '4'
    } else if d == 5 {
        '5'
    } else if d == 6 {
        '6'
    } else if d == 7 {
        '7'
    } else if d == 8 {
        '8'
    } else {
        '9'
    }
}

/// The decimal digits of `n`.
pub open spec fn decimal(n: nat) -> Seq<char>
    decreases n,
{
    if n < 10 {
        seq![digit_char(n)]
    } else {
        decimal(n / 10).push(digit_char(n % 10))
    }
}

/// The decimal digits of `n` grouped by three with commas, as in `12,345`.
pub open spec fn separated(n: nat) -> Seq<char>
    decreases n,
{
    if n < 1000 {
        decimal(n)
    } else {
        separated(n / 1000) + seq![',', digit_char((n % 1000) / 100), digit_char((n % 100) / 10), digit_char(n % 10)]
    }
}

/// A count of tenths of a percent written with one decimal, as in `33.3`.
pub open spec fn tenths_text(t: nat) -> Seq<char> {
    decimal(t / 10) + seq!['.'] + decimal(t % 10)
}

fn digit_str(d: usize) -> (s: &'static str)
    requires
        d < 10,
    ensures
        s@ == seq![digit_char(d as nat)],
{
    if d == 0 {
        proof { reveal_strlit("0"); }
        "0"
    } else if d == 1 {
        proof { reveal_strlit("1"); }
        "1"
    } else if d == 2 {
        proof { reveal_strlit("2"); }
        "2"
    } else if d == 3 {
        proof { reveal_strlit("3"); }
        "3"
    } else if d == 4 {
        proof { reveal_strlit("4"); }
        "4"
    } else if d == 5 {
        proof { reveal_strlit("5"); }
        "5"
    } else if d == 6 {
        proof { reveal_strlit("6"); }
        "6"
    } else if d == 7 {
        proof { reveal_strlit("7"); }
        "7"
    } else if d == 8 {
        proof { reveal_strlit("8"); }
        "8"
    } else {
        proof { reveal_strlit("9"); }
        "9"
    }
}

/// Appends the decimal digits of `n`.
pub fn push_decimal(s: &mut String, n: usize)
    ensures
        final(s)@ == old(s)@ + decimal(n as nat),
    decreases n,
{
    if n < 10 {
        s.append(digit_str(n));
    } else {
        push_decimal(s, n / 10);
        s.append(digit_str(n % 10));
        assert(decimal(n as nat) == decimal((n / 10) as nat).push(digit_char((n % 10) as nat)));
    }
}

/// Appends `n` grouped by three digits with commas.
pub fn push_separated(s: &mut String, n: usize)
    ensures
        final(s)@ == old(s)@ + separated(n as nat),
    decreases n,
{
    if n < 1000 {
        push_decimal(s, n);
    } else {
        push_separated(s, n / 1000);
        proof { reveal_strlit(","); }
        s.append(",");
        s.append(digit_str((n % 1000) / 100));
        s.append(digit_str((n % 100) / 10));
        s.append(digit_str(n % 10));
    }
}

/// The decimal digits of `n`.
pub fn decimal_string(n: usize) -> (s: String)
    ensures
        s@ == decimal(n as nat),
{
    let mut s = String::new();
    push_decimal(&mut s, n);
    s
}

/// `number` written with its digits grouped by three, separated by commas.
pub fn with_seperators(number: usize) -> (s: String)
    ensures
        s@ == separated(number as nat),
{
    let mut s = String::new();
    push_separated(&mut s, number);
    s
}

/// Appends `n` blanks.
pub fn push_spaces(s: &mut String, n: usize)
    ensures
        final(s)@ == old(s)@ + spaces(n as nat),
{
    let ghost s0 = s@;
    let mut i: usize = 0;
    proof { reveal_strlit(" "); }
    while i < n
        invariant
            0 <= i <= n,
            s@ == s0 + spaces(i as nat),
            " "@ == seq![' '],
        decreases n - i,
    {
        s.append(" ");
        i = i + 1;
        assert(s@ =~= s0 + spaces(i as nat));
    }
}

/// Appends a span to a report.
pub fn push_span(doc: &mut Vec<Span>, piece: Piece, style: Style)
    ensures
        doc_view(final(doc)@) == doc_view(old(doc)@).push((piece@, style)),
{
    let ghost d0 = doc@;
    doc.push(Span { piece, style });
    assert(doc_view(doc@) =~= doc_view(d0).push((piece@, style)));
}

/// Appends a span to a report.
pub fn push_span_value(doc: &mut Vec<Span>, span: Span)
    ensures
        doc_view(final(doc)@) == doc_view(old(doc)@).push(span@),
{
    let ghost d0 = doc@;
    let ghost v = span@;
    doc.push(span);
    assert(doc_view(doc@) =~= doc_view(d0).push(v));
}

/// Appends a text span to a report.
pub fn push_text(doc: &mut Vec<Span>, s: String, style: Style)
    ensures
        doc_view(final(doc)@) == doc_view(old(doc)@).push(styled(s@, style)),
{
    push_span(doc, Piece::Text(s), style);
}

/// Appends a literal as a text span to a report.
pub fn push_str(doc: &mut Vec<Span>, s: &str, style: Style)
    ensures
        doc_view(final(doc)@) == doc_view(old(doc)@).push(styled(s@, style)),
{
    push_text(doc, String::from_str(s), style);
}

/// Appends the spans of `other` to a report.
pub fn append_doc(doc: &mut Vec<Span>, other: Vec<Span>)
    ensures
        doc_view(final(doc)@) == doc_view(old(doc)@) + doc_view(other@),
{
    let ghost d0 = doc@;
    let ghost o = other@;
    let mut other = other;
    doc.append(&mut other);
    assert(doc_view(doc@) =~= doc_view(d0) + doc_view(o));
}

/// A word shown in the keyword style.
pub fn colored_word(word: &str) -> (span: Span)
    ensures
        span@ == styled(word@, Style::Keyword),
{
    Span { piece: Piece::Text(String::from_str(word)), style: Style::Keyword }
}

pub open spec fn pow10(k: nat) -> nat
    decreases k,
{
    if k == 0 {
        1
    } else {
        10 * pow10((k - 1) as nat)
    }
}

pub proof fn lemma_decimal_len(n: nat, k: nat)
    requires
        k >= 1,
        n < pow10(k),
    ensures
        1 <= decimal(n).len() <= k,
    decreases n,
{
    if n >= 10 {
        assert(k >= 2) by {
            if k == 1 {
                assert(pow10(1) == 10) by {
                    reveal_with_fuel(pow10, 2);
                }
            }
        }
        assert(pow10(k) == 10 * pow10((k - 1) as nat));
        assert(n / 10 < pow10((k - 1) as nat)) by (nonlinear_arith)
            requires
                n < 10 * pow10((k - 1) as nat),
        ;
        lemma_decimal_len(n / 10, (k - 1) as nat);
    }
}

pub proof fn lemma_separated_len(n: nat, k: nat)
    requires
        k >= 1,
        n < pow10(k),
    ensures
        1 <= separated(n).len() <= 2 * k,
    decreases n,
{
    if n < 1000 {
        if n < 10 {
            assert(decimal(n).len() == 1);
        } else {
            assert(k >= 2) by {
                if k == 1 {
                    assert(pow10(1) == 10) by {
                        reveal_with_fuel(pow10, 2);
                    }
                }
            }
            assert(pow10(3) == 1000) by {
                reveal_with_fuel(pow10, 4);
            }
            lemma_decimal_len(n, 3);
        }
    } else {
        assert(pow10(3) == 1000) by {
            reveal_with_fuel(pow10, 4);
        }
        assert(k >= 4) by {
            if k <= 3 {
                lemma_pow10_mono(k, 3);
            }
        }
        assert(pow10(k) == 1000 * pow10((k - 3) as nat)) by {
            reveal_with_fuel(pow10, 4);
        }
        assert(n / 1000 < pow10((k - 3) as nat)) by (nonlinear_arith)
            requires
                n < 1000 * pow10((k - 3) as nat),
        ;
        lemma_separated_len(n / 1000, (k - 3) as nat);
    }
}

pub proof fn lemma_pow10_mono(a: nat, b: nat)
    requires
        a <= b,
    ensures
        pow10(a) <= pow10(b),
    decreases b,
{
    if a < b {
        lemma_pow10_mono(a, (b - 1) as nat);
    }
}

/// Every count fits in twenty decimal digits, or forty characters once
/// grouped.
pub proof fn lemma_usize_text_len(n: usize)
    ensures
        1 <= decimal(n as nat).len() <= 20,
        1 <= separated(n as nat).len() <= 40,
{
    assert(pow10(20) == 100000000000000000000) by {
        reveal_with_fuel(pow10, 21);
    }
    lemma_decimal_len(n as nat, 20);
    lemma_separated_len(n as nat, 20);
}

} // verus!
