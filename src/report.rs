use vstd::prelude::*;
use vstd::string::StringExecFns;

use crate::tally::{
    all_within, choice_counts, is_choice_tally, coin_counts, dice_counts, dice_tally, occurrences, texts,
};
use crate::tossable::{face_label, CoinFace};

verus! {

/// The decimal digit `d`.
pub open spec fn digit_char(d: nat) -> char {
    if d == 0 {
        '0'
    } else if d == 1 {
        '1'
    } else if d == 2 {
        '2'
    } else if d == 3 {
        '3'
    } else if d == 4 {
        '4'
    } else if d == 5 {
        '5'
    } else if d == 6 {
        '6'
    } else if d == 7 {
        '7'
    } else if d == 8 {
        '8'
    } else {
        '9'
    }
}

/// `n` written in decimal, without leading zeros.
pub open spec fn decimal_text(n: nat) -> Seq<char>
    decreases n,
{
    if n < 10 {
        seq![digit_char(n)]
    } else {
        decimal_text(n / 10).push(digit_char(n % 10))
    }
}

/// The plural ending for a count: none for exactly one.
pub open spec fn plural_text(count: nat) -> Seq<char> {
    if count == 1 {
        Seq::empty()
    } else {
        seq!['s']
    }
}

/// The items joined with `sep` between each two.
pub open spec fn joined(items: Seq<Seq<char>>, sep: Seq<char>) -> Seq<char>
    decreases items.len(),
{
    if items.len() == 0 {
        Seq::empty()
    } else if items.len() == 1 {
        items[0]
    } else {
        joined(items.drop_last(), sep) + sep + items.last()
    }
}

fn digit_str(d: u64) -> (r: &'static str)
    requires
        d < 10,
    ensures
        r@ == seq![digit_char(d as nat)],
{
    proof {
        reveal_strlit("0");
        reveal_strlit("1");
        reveal_strlit("2");
        reveal_strlit("3");
        reveal_strlit("4");
        reveal_strlit("5");
        reveal_strlit("6");
        reveal_strlit("7");
        reveal_strlit("8");
        reveal_strlit("9");
    }
    if d == 0 {
        "0"
    } else if d == 1 {
        "1"
    } else if d == 2 {
        "2"
    } else if d == 3 {
        "3"
    } else if d == 4 {
        "4"
    } else if d == 5 {
        "5"
    } else if d == 6 {
        "6"
    } else if d == 7 {
        "7"
    } else if d == 8 {
        "8"
    } else {
        "9"
    }
}

/// `n` in decimal.
pub fn decimal(n: u64) -> (r: String)
    ensures
        r@ == decimal_text(n as nat),
    decreases n,
{
    if n < 10 {
        String::from_str(digit_str(n))
    } else {
        let mut s = decimal(n / 10);
        s.append(digit_str(n % 10));
        s
    }
}

/// The ending that makes "time" agree with `count`.
pub fn plural(count: u64) -> (r: &'static str)
    ensures
        r@ == plural_text(count as nat),
{
    proof {
        reveal_strlit("");
        reveal_strlit("s");
    }
    if count == 1 {
        ""
    } else {
        "s"
    }
}

/// The items joined with `sep` between each two.
pub fn join(items: &Vec<String>, sep: &str) -> (r: String)
    ensures
        r@ == joined(texts(items@), sep@),
{
    let mut out = String::new();
    let mut i: usize = 0;
    while i < items.len()
        invariant
            i <= items@.len(),
            out@ == joined(texts(items@).take(i as int), sep@),
        decreases items@.len() - i,
    {
        let ghost prev = texts(items@).take(i as int);
        let ghost now = texts(items@).take(i + 1);
        assert(now.drop_last() == prev);
        if i > 0 {
            out.append(sep);
        } else {
            assert(out@ == Seq::<char>::empty());
        }
        out.append(items[i].as_str());
        i = i + 1;
    }
    assert(texts(items@).take(i as int) == texts(items@));
    out
}

/// The line that gives a single outcome.
pub open spec fn outcome_text(text: Seq<char>) -> Seq<char> {
    "Got "@ + text
}

/// The line that lists every outcome, in order.
pub open spec fn results_text(items: Seq<Seq<char>>) -> Seq<char> {
    "Results: "@ + joined(items, ", "@)
}

/// The line that says how often `label` came up.
pub open spec fn count_text(label: Seq<char>, count: nat) -> Seq<char> {
    "Got "@ + label + " "@ + decimal_text(count) + " time"@ + plural_text(count)
}

/// The line that sums up a run of coin throws.
pub open spec fn coin_summary_text(heads: nat, tails: nat) -> Seq<char> {
    "Got "@ + decimal_text(heads) + " heads and "@ + decimal_text(tails) + " tails"@
}

/// The line that gives a single outcome.
pub fn outcome_line(text: &str) -> (r: String)
    ensures
        r@ == outcome_text(text@),
{
    proof {
        reveal_strlit("Got ");
    }
    let mut out = String::from_str("Got ");
    out.append(text);
    out
}

/// The line that lists every outcome, in order.
pub fn results_line(items: &Vec<String>) -> (r: String)
    ensures
        r@ == results_text(texts(items@)),
{
    proof {
        reveal_strlit("Results: ");
        reveal_strlit(", ");
    }
    let mut out = String::from_str("Results: ");
    let all = join(items, ", ");
    out.append(all.as_str());
    out
}

/// The line that says how often `label` came up.
pub fn count_line(label: &str, count: u64) -> (r: String)
    ensures
        r@ == count_text(label@, count as nat),
{
    proof {
        reveal_strlit("Got ");
        reveal_strlit(" ");
        reveal_strlit(" time");
    }
    let mut out = String::from_str("Got ");
    out.append(label);
    out.append(" ");
    let n = decimal(count);
    out.append(n.as_str());
    out.append(" time");
    out.append(plural(count));
    out
}

/// The line that sums up a run of coin throws.
pub fn coin_summary_line(heads: u64, tails: u64) -> (r: String)
    ensures
        r@ == coin_summary_text(heads as nat, tails as nat),
{
    proof {
        reveal_strlit("Got ");
        reveal_strlit(" heads and ");
        reveal_strlit(" tails");
    }
    let mut out = String::from_str("Got ");
    let h = decimal(heads);
    out.append(h.as_str());
    out.append(" heads and ");
    let t = decimal(tails);
    out.append(t.as_str());
    out.append(" tails");
    out
}

/// The names of the faces, in order.
pub fn face_labels(results: &Vec<CoinFace>) -> (r: Vec<String>)
    ensures
        r@.len() == results@.len(),
        forall|k: int| 0 <= k < r@.len() ==> #[trigger] r@[k]@ == face_label(results@[k]),
{
    let mut out: Vec<String> = Vec::new();
    let mut i: usize = 0;
    while i < results.len()
        invariant
            i <= results@.len(),
            out@.len() == i,
            forall|k: int| 0 <= k < i ==> #[trigger] out@[k]@ == face_label(results@[k]),
        decreases results@.len() - i,
    {
        out.push(String::from_str(results[i].label()));
        i = i + 1;
    }
    out
}

/// The integers in decimal, in order.
pub fn decimals(results: &Vec<u64>) -> (r: Vec<String>)
    ensures
        r@.len() == results@.len(),
        forall|k: int| 0 <= k < r@.len() ==> #[trigger] r@[k]@ == decimal_text(results@[k] as nat),
{
    let mut out: Vec<String> = Vec::new();
    let mut i: usize = 0;
    while i < results.len()
        invariant
            i <= results@.len(),
            out@.len() == i,
            forall|k: int| 0 <= k < i ==> #[trigger] out@[k]@ == decimal_text(results@[k] as nat),
        decreases results@.len() - i,
    {
        out.push(decimal(results[i]));
        i = i + 1;
    }
    out
}

/// The list of outcomes, where it is asked for.
pub open spec fn listed(print: bool, items: Seq<Seq<char>>) -> Seq<Seq<char>> {
    if print {
        seq![results_text(items)]
    } else {
        Seq::empty()
    }
}

/// The report on coin throws: the face alone for a single throw, else the
/// list of faces where asked for and the number of heads and of tails.
pub open spec fn coin_report_text(results: Seq<CoinFace>, print: bool) -> Seq<Seq<char>> {
    if results.len() == 1 {
        seq![outcome_text(face_label(results[0]))]
    } else {
        listed(print, results.map_values(|f: CoinFace| face_label(f))) + seq![
            coin_summary_text(
                occurrences(results, CoinFace::Heads),
                occurrences(results, CoinFace::Tails),
            ),
        ]
    }
}

/// The report on die throws: the face alone for a single throw, else the
/// list of faces where asked for and one line for each face from `min` up
/// to `max`, with how often it came up.
pub open spec fn dice_report_text(min: u64, max: u64, results: Seq<u64>, print: bool) -> Seq<
    Seq<char>,
> {
    if results.len() == 1 {
        seq![outcome_text(decimal_text(results[0] as nat))]
    } else {
        listed(print, results.map_values(|v: u64| decimal_text(v as nat))) + Seq::new(
            (max - min + 1) as nat,
            |j: int| count_text(decimal_text((min + j) as nat), dice_tally(min, max, results)[j] as nat),
        )
    }
}

fn push_listed(lines: &mut Vec<String>, print: bool, items: &Vec<String>)
    requires
        old(lines)@.len() == 0,
    ensures
        texts(final(lines)@) == listed(print, texts(items@)),
{
    if print {
        lines.push(results_line(items));
        assert(texts(lines@) =~= listed(print, texts(items@)));
    } else {
        assert(texts(lines@) =~= listed(print, texts(items@)));
    }
}

/// The lines reporting on a run of coin throws.
pub fn coin_report(results: &Vec<CoinFace>, print: bool) -> (r: Vec<String>)
    ensures
        texts(r@) == coin_report_text(results@, print),
{
    let mut lines: Vec<String> = Vec::new();
    if results.len() == 1 {
        lines.push(outcome_line(results[0].label()));
        assert(texts(lines@) =~= coin_report_text(results@, print));
        return lines;
    }
    let labels = face_labels(results);
    push_listed(&mut lines, print, &labels);
    assert(texts(labels@) =~= results@.map_values(|f: CoinFace| face_label(f)));
    let (heads, tails) = coin_counts(results);
    lines.push(coin_summary_line(heads as u64, tails as u64));
    assert(texts(lines@) =~= coin_report_text(results@, print));
    lines
}

/// The lines reporting on a run of throws of the die `min..=max`.
pub fn dice_report(min: u64, max: u64, results: &Vec<u64>, print: bool) -> (r: Vec<String>)
    requires
        min < max,
        max - min < usize::MAX,
        all_within(min, max, results@),
    ensures
        texts(r@) == dice_report_text(min, max, results@, print),
{
    let mut lines: Vec<String> = Vec::new();
    if results.len() == 1 {
        let text = decimal(results[0]);
        lines.push(outcome_line(text.as_str()));
        assert(texts(lines@) =~= dice_report_text(min, max, results@, print));
        return lines;
    }
    let faces = decimals(results);
    push_listed(&mut lines, print, &faces);
    assert(texts(faces@) =~= results@.map_values(|v: u64| decimal_text(v as nat)));
    let ghost head = texts(lines@);
    let counts = dice_counts(min, max, results);
    let size = (max - min) as usize + 1;
    let mut j: usize = 0;
    while j < size
        invariant
            j <= size,
            size == max - min + 1,
            counts@.len() == size,
            forall|k: int| 0 <= k < size ==> counts@[k] == #[trigger] dice_tally(min, max, results@)[k],
            lines@.len() == head.len() + j,
            forall|k: int| 0 <= k < head.len() ==> #[trigger] lines@[k]@ == head[k],
            forall|k: int|
                0 <= k < j ==> #[trigger] lines@[head.len() + k]@ == count_text(
                    decimal_text((min + k) as nat),
                    dice_tally(min, max, results@)[k] as nat,
                ),
        decreases size - j,
    {
        let face = decimal(min + j as u64);
        lines.push(count_line(face.as_str(), counts[j]));
        j = j + 1;
    }
    let ghost tail = Seq::new(
        (max - min + 1) as nat,
        |k: int| count_text(decimal_text((min + k) as nat), dice_tally(min, max, results@)[k] as nat),
    );
    assert(head == listed(print, results@.map_values(|v: u64| decimal_text(v as nat))));
    assert(dice_report_text(min, max, results@, print) == head + tail);
    assert forall|k: int| 0 <= k < lines@.len() implies #[trigger] texts(lines@)[k] == (head
        + tail)[k] by {
        if k >= head.len() {
            assert(lines@[head.len() + (k - head.len())]@ == tail[k - head.len()]);
        }
    }
    assert(texts(lines@) =~= dice_report_text(min, max, results@, print));
    lines
}

/// The message of the error on a count of draws without replacement that
/// the options cannot serve.
pub open spec fn count_too_large_message() -> Seq<char> {
    "`count` must be smaller than the amount of choices."@
}

/// The report on a run of choices with replacement, given as a tally: the
/// option alone for a single choice, else the list of options where asked
/// for and one line for each entry of the tally.
pub open spec fn choice_report_text(
    results: Seq<String>,
    tally: Seq<(String, u64)>,
    print: bool,
) -> Seq<Seq<char>> {
    if results.len() == 1 {
        seq![outcome_text(results[0]@)]
    } else {
        listed(print, texts(results)) + tally.map_values(
            |e: (String, u64)| count_text(e.0@, e.1 as nat),
        )
    }
}

/// The lines reporting on a run of choices with replacement; the distinct
/// options may be listed in any order.
pub fn choice_report(results: &Vec<String>, print: bool) -> (r: Vec<String>)
    ensures
        exists|t: Seq<(String, u64)>|
            is_choice_tally(t, results@) && texts(r@) == choice_report_text(results@, t, print),
{
    let mut lines: Vec<String> = Vec::new();
    let counts = choice_counts(results);
    if results.len() == 1 {
        lines.push(outcome_line(results[0].as_str()));
        assert(texts(lines@) =~= choice_report_text(results@, counts@, print));
        return lines;
    }
    push_listed(&mut lines, print, results);
    let ghost head = texts(lines@);
    let mut j: usize = 0;
    while j < counts.len()
        invariant
            j <= counts@.len(),
            lines@.len() == head.len() + j,
            forall|k: int| 0 <= k < head.len() ==> #[trigger] lines@[k]@ == head[k],
            forall|k: int|
                0 <= k < j ==> #[trigger] lines@[head.len() + k]@ == count_text(
                    counts@[k].0@,
                    counts@[k].1 as nat,
                ),
        decreases counts@.len() - j,
    {
        lines.push(count_line(counts[j].0.as_str(), counts[j].1));
        j = j + 1;
    }
    let ghost tail = counts@.map_values(|e: (String, u64)| count_text(e.0@, e.1 as nat));
    assert(choice_report_text(results@, counts@, print) == head + tail);
    assert forall|k: int| 0 <= k < lines@.len() implies #[trigger] texts(lines@)[k] == (head
        + tail)[k] by {
        if k >= head.len() {
            assert(lines@[head.len() + (k - head.len())]@ == tail[k - head.len()]);
        }
    }
    assert(texts(lines@) =~= choice_report_text(results@, counts@, print));
    lines
}

/// The line reporting on a run of draws without replacement: the options
/// drawn, in order.
pub fn extract_report(results: &Vec<String>) -> (r: String)
    ensures
        r@ == outcome_text(joined(texts(results@), ", "@)),
{
    proof {
        reveal_strlit(", ");
    }
    let all = join(results, ", ");
    outcome_line(all.as_str())
}

/// Whether `number` draws without replacement may be made from
/// `n_choices` options: fewer draws than options are asked for.
pub fn check_extract_count(number: u64, n_choices: usize) -> (r: Result<(), &'static str>)
    ensures
        r is Ok <==> number < n_choices,
        r matches Err(e) ==> e@ == count_too_large_message(),
{
    if number as u128 >= n_choices as u128 {
        proof {
            reveal_strlit("`count` must be smaller than the amount of choices.");
        }
        return Err("`count` must be smaller than the amount of choices.");
    }
    Ok(())
}

} // verus!
