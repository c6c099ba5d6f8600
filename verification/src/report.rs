//! The parts of the before/after report that list the swaps: the text lines of the
//! human report and the `changed` items of the JSON report.

use vstd::prelude::*;

use crate::engine::MoveV;

verus! {

/// The decimal digit `d` as text.
pub open spec fn digit_text(d: int) -> Seq<char> {
    if d == 0 {
        "0"@
    } else if d == 1 {
        "1"@
    } else if d == 2 {
        "2"@
    } else if d == 3 {
        "3"@
    } else if d == 4 {
        "4"@
    } else if d == 5 {
        "5"@
    } else if d == 6 {
        "6"@
    } else if d == 7 {
        "7"@
    } else if d == 8 {
        "8"@
    } else {
        "9"@
    }
}

/// `n` written in decimal, without leading zeros.
pub open spec fn decimal(n: nat) -> Seq<char>
    decreases n,
{
    if n < 10 {
        digit_text(n as int)
    } else {
        decimal(n / 10) + digit_text((n % 10) as int)
    }
}

/// A swap's line in the report: `    inst: old -> new`.
pub open spec fn swap_line(m: MoveV) -> Seq<char> {
    "    "@ + m.0 + ": "@ + m.1 + " -> "@ + m.2 + "\n"@
}

/// The report lines of the swaps, in order.
pub open spec fn swap_lines(ms: Seq<MoveV>) -> Seq<char>
    decreases ms.len(),
{
    if ms.len() == 0 {
        seq![]
    } else {
        swap_lines(ms.drop_last()) + swap_line(ms.last())
    }
}

/// The swap section of the report: the count of swapped cells, then one line per swap.
pub open spec fn changes_report_spec(ms: Seq<MoveV>) -> Seq<char> {
    "  changed: "@ + decimal(ms.len()) + " cell(s)\n"@ + swap_lines(ms)
}

/// A swap as a JSON object: `{"inst":"..","old":"..","new":".."}`, the names as they are.
pub open spec fn swap_json(m: MoveV) -> Seq<char> {
    "{\"inst\":\""@ + m.0 + "\",\"old\":\""@ + m.1 + "\",\"new\":\""@ + m.2 + "\"}"@
}

/// The JSON objects of the swaps, joined by `,`.
pub open spec fn swaps_json(ms: Seq<MoveV>) -> Seq<char>
    decreases ms.len(),
{
    if ms.len() == 0 {
        seq![]
    } else if ms.len() == 1 {
        swap_json(ms[0])
    } else {
        swaps_json(ms.drop_last()) + ","@ + swap_json(ms.last())
    }
}

fn digit_string(d: usize) -> (s: String)
    requires
        d < 10,
    ensures
        s@ == digit_text(d as int),
{
    let lit = if d == 0 {
        "0"
    } else if d == 1 {
        "1"
    } else if d == 2 {
        "2"
    } else if d == 3 {
        "3"
    } else if d == 4 {
        "4"
    } else if d == 5 {
        "5"
    } else if d == 6 {
        "6"
    } else if d == 7 {
        "7"
    } else if d == 8 {
        "8"
    } else {
        "9"
    };
    String::from_str(lit)
}

/// `n` written in decimal.
pub fn decimal_string(n: usize) -> (s: String)
    ensures
        s@ == decimal(n as nat),
    decreases n,
{
    if n < 10 {
        digit_string(n)
    } else {
        let mut s = decimal_string(n / 10);
        let d = digit_string(n % 10);
        s.append(d.as_str());
        s
    }
}

/// The swap section of the before/after report.
pub fn changes_report(changed: &Vec<(String, String, String)>) -> (s: String)
    ensures
        s@ == changes_report_spec(changed.deep_view()),
{
    let ghost ms = changed.deep_view();
    let mut s = String::from_str("  changed: ");
    let count = decimal_string(changed.len());
    s.append(count.as_str());
    s.append(" cell(s)\n");
    let ghost head = s@;
    assert(ms.take(0) =~= Seq::<MoveV>::empty());
    let n = changed.len();
    let mut i: usize = 0;
    while i < n
        invariant
            ms == changed.deep_view(),
            n == changed.len(),
            i <= n,
            s@ == head + swap_lines(ms.take(i as int)),
        decreases n - i,
    {
        assert(ms.take(i + 1).drop_last() =~= ms.take(i as int));
        assert(ms.take(i + 1).last() == ms[i as int]);
        s.append("    ");
        s.append(changed[i].0.as_str());
        s.append(": ");
        s.append(changed[i].1.as_str());
        s.append(" -> ");
        s.append(changed[i].2.as_str());
        s.append("\n");
        assert(s@ =~= head + swap_lines(ms.take(i + 1)));
        i = i + 1;
    }
    assert(ms.take(n as int) =~= ms);
    s
}

/// The `changed` items of the JSON report, joined by `,`.
pub fn changes_json(changed: &Vec<(String, String, String)>) -> (s: String)
    ensures
        s@ == swaps_json(changed.deep_view()),
{
    let ghost ms = changed.deep_view();
    let mut s = String::from_str("");
    proof {
        reveal_strlit("");
    }
    assert(ms.take(0) =~= Seq::<MoveV>::empty());
    let n = changed.len();
    let mut i: usize = 0;
    while i < n
        invariant
            ms == changed.deep_view(),
            n == changed.len(),
            i <= n,
            s@ == swaps_json(ms.take(i as int)),
        decreases n - i,
    {
        assert(ms.take(i + 1).drop_last() =~= ms.take(i as int));
        assert(ms.take(i + 1).last() == ms[i as int]);
        let ghost before = s@;
        if i > 0 {
            s.append(",");
        }
        s.append("{\"inst\":\"");
        s.append(changed[i].0.as_str());
        s.append("\",\"old\":\"");
        s.append(changed[i].1.as_str());
        s.append("\",\"new\":\"");
        s.append(changed[i].2.as_str());
        s.append("\"}");
        proof {
            if i == 0 {
                assert(before =~= Seq::<char>::empty());
                assert(ms.take(1)[0] == ms[0]);
            }
        }
        assert(s@ =~= swaps_json(ms.take(i + 1)));
        i = i + 1;
    }
    assert(ms.take(n as int) =~= ms);
    s
}

} // verus!
