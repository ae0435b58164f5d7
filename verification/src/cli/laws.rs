//! What the command line says.

use super::modules_cmd::{item_lines_of, run_lines_of, unknown_module};
use super::report::{double_of, human_bytes_of, in_units, nearest, power_below, reports};
use super::report::{thousandth, ReportNode, ScanReport, ONE};
use super::scan_cmd::{child_line_of, grower_line_of, report_lines_of};
use super::scan_cmd::{shortened, EXIT_CANCELLED, GROWERS_REPORTED, SNAPSHOTS_KEPT};
use crate::module::{Item, Level};
use crate::scan::tree::{Cell, NodeKind};
use crate::text::{at_left, at_right, decimal_text, strung};
use vstd::prelude::*;

verus! {

/// How many bytes a unit stands for: each a thousand of the one before.
pub open spec fn unit_bytes(unit: nat) -> nat
    decreases unit,
{
    if unit == 0 {
        1
    } else {
        1000 * unit_bytes((unit - 1) as nat)
    }
}

/// How far two numbers are apart.
pub open spec fn apart(a: int, b: int) -> int {
    if a >= b {
        a - b
    } else {
        b - a
    }
}

proof fn rounding_is_near(n: nat, d: nat)
    requires
        d > 0,
    ensures
        2 * apart((nearest(n, d) * d) as int, n as int) <= d,
{
    let low = n / d;
    let rest = n % d;
    vstd::arithmetic::div_mod::lemma_fundamental_div_mod(n as int, d as int);
    assert(n == d * low + rest);
    assert(low * d == d * low) by (nonlinear_arith);
    assert((low + 1) * d == d * low + d) by (nonlinear_arith);
}

proof fn a_power_is_below(n: nat)
    ensures
        1 <= power_below(n),
        n >= 1 ==> power_below(n) <= n,
    decreases n,
{
    if n >= 2 {
        a_power_is_below(n / 2);
    }
}

proof fn a_thousandth_is_near(x: nat)
    requires
        x >= 1000 * ONE,
    ensures
        2 * ONE * apart((1000 * thousandth(x)) as int, x as int) <= x,
        thousandth(x) >= ONE,
{
    let one = ONE as nat;
    let units = x / (1000 * one);
    let step = power_below(units);
    let r = nearest(x, 1000 * step);
    assert(units >= 1) by {
        vstd::arithmetic::div_mod::lemma_div_is_ordered(
            (1000 * one) as int,
            x as int,
            (1000 * one) as int,
        );
        vstd::arithmetic::div_mod::lemma_div_by_self((1000 * one) as int);
    }
    a_power_is_below(units);
    rounding_is_near(x, 1000 * step);
    vstd::arithmetic::div_mod::lemma_fundamental_div_mod(x as int, (1000 * one) as int);
    assert((1000 * one) * units <= x);
    assert((1000 * one) * step <= (1000 * one) * units) by (nonlinear_arith)
        requires
            step <= units,
    ;
    assert(r * (1000 * step) == 1000 * (r * step)) by (nonlinear_arith);
    assert(2 * apart((1000 * thousandth(x)) as int, x as int) <= 1000 * step);
    let far = apart((1000 * thousandth(x)) as int, x as int);
    assert(2 * one * far <= one * (1000 * step)) by (nonlinear_arith)
        requires
            2 * far <= 1000 * step,
    ;
    assert(one * (1000 * step) == (1000 * one) * step) by (nonlinear_arith);
    assert(r >= one) by {
        let low = x / (1000 * step);
        vstd::arithmetic::div_mod::lemma_fundamental_div_mod(x as int, (1000 * step) as int);
        if low < one {
            assert((1000 * step) * low <= (1000 * step) * (one - 1)) by (nonlinear_arith)
                requires
                    low <= one - 1,
            ;
            assert((1000 * step) * (one - 1) == (1000 * one) * step - 1000 * step) by (nonlinear_arith);
            assert(x % (1000 * step) < 1000 * step);
        }
    }
    assert(r * step >= one) by (nonlinear_arith)
        requires
            r >= one,
            step >= 1,
    ;
}

proof fn doubles_are_near(bytes: nat)
    ensures
        2 * apart(double_of(bytes) as int, (bytes * ONE) as int) <= bytes + 1,
        bytes >= 1 ==> apart(double_of(bytes) as int, (bytes * ONE) as int) <= bytes,
{
    let p = power_below(bytes);
    a_power_is_below(bytes);
    rounding_is_near(bytes * ONE as nat, p);
}

/// One more division by a thousand keeps what is shown near what is meant.
proof fn one_division_stays_near(x: nat, p: nat, unit: nat, bytes: nat)
    requires
        x >= 1000 * ONE,
        unit < 5,
        apart((x * p) as int, (bytes * ONE) as int) <= (unit + 1) * bytes,
    ensures
        apart((thousandth(x) * (1000 * p)) as int, (bytes * ONE) as int) <= (unit + 2) * bytes,
{
    let one = ONE as int;
    let y = thousandth(x);
    a_thousandth_is_near(x);
    let far = apart((1000 * y) as int, x as int);
    let e = (unit + 1) * bytes;
    let meant = bytes * one;
    assert(y * (1000 * p) == (1000 * y) * p) by (nonlinear_arith);
    assert(apart(((1000 * y) * p) as int, (x * p) as int) == far * p) by {
        if 1000 * y >= x {
            assert((1000 * y) * p - x * p == (1000 * y - x) * p) by (nonlinear_arith);
            assert((1000 * y - x) * p >= 0) by (nonlinear_arith)
                requires
                    1000 * y >= x,
                    p >= 0,
            ;
        } else {
            assert(x * p - (1000 * y) * p == (x - 1000 * y) * p) by (nonlinear_arith);
            assert((x - 1000 * y) * p >= 0) by (nonlinear_arith)
                requires
                    1000 * y < x,
                    p >= 0,
            ;
        }
    }
    assert(2 * one * (far * p) <= x * p) by (nonlinear_arith)
        requires
            2 * one * far <= x,
            p >= 0,
    ;
    assert(x * p <= meant + e);
    assert(e <= 5 * bytes) by (nonlinear_arith)
        requires
            e == (unit + 1) * bytes,
            unit < 5,
    ;
    assert(meant + e <= 2 * one * bytes) by {
        assert(one == 4503599627370496);
        assert(meant == 4503599627370496 * bytes);
    }
    assert(far * p <= bytes) by (nonlinear_arith)
        requires
            2 * one * (far * p) <= 2 * one * bytes,
            one == 4503599627370496,
    ;
    assert((unit + 2) * bytes == e + bytes) by (nonlinear_arith)
        requires
            e == (unit + 1) * bytes,
    ;
}

proof fn units_stay_near(x: nat, unit: nat, bytes: nat)
    requires
        unit <= 5,
        apart((x * unit_bytes(unit)) as int, (bytes * ONE) as int) <= (unit + 1) * bytes,
    ensures
        ({
            let (left, shown) = in_units(x, unit);
            &&& unit <= shown <= 5
            &&& apart((left * unit_bytes(shown)) as int, (bytes * ONE) as int) <= (shown + 1) * bytes
            &&& shown < 5 ==> left < 1000 * ONE
            &&& shown > unit ==> left >= ONE
        }),
    decreases 5 - unit,
{
    if x >= 1000 * ONE && unit < 5 {
        let p = unit_bytes(unit);
        one_division_stays_near(x, p, unit, bytes);
        a_thousandth_is_near(x);
        assert(unit_bytes(unit + 1) == 1000 * p);
        units_stay_near(thousandth(x), unit + 1, bytes);
        let (left, shown) = in_units(thousandth(x), unit + 1);
        if shown == unit + 1 {
            assert(left == thousandth(x)) by {
                if thousandth(x) >= 1000 * ONE && unit + 1 < 5 {
                    units_go_on(thousandth(thousandth(x)), unit + 2);
                }
            }
        }
    }
}

proof fn units_go_on(x: nat, unit: nat)
    requires
        unit <= 5,
    ensures
        in_units(x, unit).1 >= unit,
    decreases 5 - unit,
{
    if x >= 1000 * ONE && unit < 5 {
        units_go_on(thousandth(x), unit + 1);
    }
}

/// Whether a figure of so many tenths of a unit is what a number of bytes rounds to: no further off
/// than half a tenth, but for what a floating-point number of 53 bits cannot tell.
pub open spec fn rounds_to(bytes: nat, tenths: nat, unit: nat) -> bool {
    2 * ONE * apart((tenths * unit_bytes(unit)) as int, (10 * bytes) as int) <= ONE * unit_bytes(unit) + 120 * bytes
}

/// A size is shown in full below a thousand bytes, and in tenths of a unit from there on: in the
/// unit it reaches a whole one of and not a thousand, up to the largest there is, and rounded to
/// the nearest tenth.
pub proof fn a_size_is_shown_in_the_unit_it_reaches(bytes: u64) -> (shown: (nat, nat))
    ensures
        bytes < 1000 ==> shown.1 == 0,
        shown.1 <= 5,
        shown.1 == 0 ==> human_bytes_of(bytes) == decimal_text(bytes as nat) + " B"@,
        shown.1 > 0 ==> human_bytes_of(bytes) == decimal_text(shown.0 / 10) + "."@ + seq![
            crate::text::digit(shown.0 % 10),
        ] + if shown.1 == 1 {
            " KB"@
        } else if shown.1 == 2 {
            " MB"@
        } else if shown.1 == 3 {
            " GB"@
        } else if shown.1 == 4 {
            " TB"@
        } else {
            " PB"@
        },
        shown.1 > 0 ==> rounds_to(bytes as nat, shown.0, shown.1),
        shown.1 > 0 ==> unit_bytes(shown.1) * ONE <= bytes * ONE + 6 * bytes,
        shown.1 < 5 ==> bytes * ONE - 6 * bytes < 1000 * unit_bytes(shown.1) * ONE,
{
    let n = bytes as nat;
    let x = double_of(n);
    let (left, unit) = in_units(x, 0);
    let tenths = nearest(10 * left, ONE as nat);
    doubles_are_near(n);
    assert(unit_bytes(0) == 1);
    assert(x * unit_bytes(0) == x) by (nonlinear_arith)
        requires
            unit_bytes(0) == 1,
    ;
    assert((0 + 1) * n == n) by (nonlinear_arith);
    if n == 0 {
        assert(power_below(0) == 1);
        assert(nearest(0, 1) == 0);
        assert(x == 0);
    }
    units_stay_near(x, 0, n);
    let p = unit_bytes(unit);
    let one = ONE as int;
    rounding_is_near(10 * left, ONE as nat);
    assert((unit + 1) * n <= 6 * n) by (nonlinear_arith)
        requires
            unit <= 5,
    ;
    assert(n * one == 4503599627370496 * n) by (nonlinear_arith)
        requires
            one == 4503599627370496,
    ;
    if bytes < 1000 {
        assert(x < 1000 * ONE);
    }
    if unit > 0 {
        assert(left * p >= one * p) by (nonlinear_arith)
            requires
                left >= one,
                p >= 0,
        ;
        // The tenths against what is left, and what is left against the bytes.
        let d = apart((tenths * one) as int, (10 * left) as int);
        assert(apart(((tenths * one) * p) as int, ((10 * left) * p) as int) == d * p) by {
            spread(tenths * one, (10 * left) as int, p as int);
        }
        assert(2 * (d * p) <= one * p) by (nonlinear_arith)
            requires
                2 * d <= one,
                p >= 0,
        ;
        assert((10 * left) * p == 10 * (left * p)) by (nonlinear_arith);
        assert((tenths * one) * p == one * (tenths * p)) by (nonlinear_arith);
        let far = apart((tenths * p) as int, (10 * n) as int);
        assert(apart((one * (tenths * p)) as int, (one * (10 * n)) as int) == one * far) by {
            spread((tenths * p) as int, (10 * n) as int, one);
            assert((tenths * p) * one == one * (tenths * p)) by (nonlinear_arith);
            assert((10 * n) * one == one * (10 * n)) by (nonlinear_arith);
            assert(far * one == one * far) by (nonlinear_arith);
        }
        assert(one * (10 * n) == 10 * (n * one)) by (nonlinear_arith);
        assert(one * far <= d * p + 10 * (6 * n));
        assert(2 * one * far == 2 * (one * far)) by (nonlinear_arith);
    }
    if unit < 5 {
        if p > 0 && left < 1000 * ONE {
            assert(left * p < 1000 * one * p) by (nonlinear_arith)
                requires
                    left < 1000 * one,
                    p > 0,
            ;
            assert(1000 * one * p == 1000 * p * one) by (nonlinear_arith);
        }
        units_count(unit);
    }
    (tenths, unit)
}

proof fn units_count(unit: nat)
    ensures
        unit_bytes(unit) >= 1,
    decreases unit,
{
    if unit > 0 {
        units_count((unit - 1) as nat);
    }
}

proof fn spread(a: int, b: int, p: int)
    requires
        p >= 0,
    ensures
        apart((a * p) as int, (b * p) as int) == apart(a as int, b as int) * p,
{
    assert(a * p - b * p == (a - b) * p) by (nonlinear_arith);
    assert(b * p - a * p == (b - a) * p) by (nonlinear_arith);
    if a >= b {
        assert((a - b) * p >= 0) by (nonlinear_arith)
            requires
                a >= b,
                p >= 0,
        ;
    } else {
        assert((b - a) * p >= 0) by (nonlinear_arith)
            requires
                a < b,
                p >= 0,
        ;
    }
    if a * p == b * p {
        assert(apart(a as int, b as int) * p == 0) by {
            if a >= b {
                assert((a - b) * p == 0);
            } else {
                assert((b - a) * p == 0);
            }
        }
    }
}

/// A path that is too long loses its beginning: what is left has the width there is, an ellipsis
/// in front, and ends as the path does.
pub proof fn a_shortened_path_keeps_its_end(path: Seq<char>, max: int)
    requires
        max >= 0,
    ensures
        path.len() <= max ==> shortened(path, max) == path,
        path.len() > max ==> shortened(path, max)[0] == '…',
        path.len() > max && max >= 1 ==> {
            &&& shortened(path, max).len() == max
            &&& forall|i: int|
                1 <= i < max ==> #[trigger] shortened(path, max)[i] == path[path.len() - max + i]
        },
        path.len() > 0 && max == 0 ==> shortened(path, max).len() == 1,
{
}

/// A report goes down as far as it was asked to and takes the first children of every node, the
/// largest; it says of every node whether there is more below it than it shows.
pub proof fn a_report_says_where_it_stops(
    node: ReportNode,
    cells: Seq<Cell>,
    id: int,
    depth: nat,
    top: int,
)
    requires
        reports(node, cells, id, depth, top),
        top >= 0,
    ensures
        node.truncated == (node.children@.len() < cells[id].count),
        depth == 0 ==> node.children@.len() == 0,
        node.children@.len() <= top || depth == 0,
        depth > 0 ==> forall|k: int|
            0 <= k < node.children@.len() ==> reports(
                #[trigger] node.children@[k],
                cells,
                cells[id].first + k,
                (depth - 1) as nat,
                top,
            ),
        node.name@ == cells[id].name,
        node.size == cells[id].size,
        node.logical_size == cells[id].logical_size,
        node.file_count == cells[id].file_count,
{
}

/// An item is told by its level, its size and its title, and its reasons stand below it, one to a
/// line. A size that was estimated says so.
pub proof fn an_item_is_told_with_its_reasons(item: Item)
    ensures
        item_lines_of(item).len() == 1 + item.verdict.reasons@.len(),
        item_lines_of(item)[0] == at_left(
            match item.verdict.level {
                Level::Safe => "safe"@,
                Level::Review => "review"@,
                Level::Keep => "keep"@,
            },
            6,
        ) + "  "@ + at_right(
            (if item.size.estimated {
                "~"@
            } else {
                Seq::empty()
            }) + human_bytes_of(item.size.bytes),
            9,
        ) + "  "@ + item.title@,
        forall|i: int|
            0 <= i < item.verdict.reasons@.len() ==> #[trigger] item_lines_of(item)[i + 1]
                == crate::text::spaces(19) + item.verdict.reasons@[i].text@,
{
    assert(Seq::<char>::empty() + human_bytes_of(item.size.bytes) =~= human_bytes_of(
        item.size.bytes,
    ));
}

/// The items of a module are told one after the other, each with its reasons.
pub proof fn items_are_told_in_their_order(items: Seq<Item>, k: nat)
    requires
        k < items.len(),
    ensures
        run_lines_of(items, 0) == Seq::<Seq<char>>::empty(),
        run_lines_of(items, k + 1) == run_lines_of(items, k) + item_lines_of(items[k as int]),
{
}

/// The numbers the command line works with.
pub proof fn the_numbers_of_the_command_line()
    ensures
        EXIT_CANCELLED == 130,
        SNAPSHOTS_KEPT == 10,
        GROWERS_REPORTED == 20,
        crate::cleanup::run::STEP_TIMEOUT == 600,
        crate::module::DISCOVERY_TIMEOUT == 60,
{
}

/// The report of a scan tells its root first, with its size and what was met, then the volume
/// where it is known. Each child has a line of its own, in the order of the report: its size, its
/// share and its name, with a slash behind that of a directory. What grew comes last, behind an
/// empty line and a heading, and only where something grew.
pub proof fn a_report_has_a_line_for_each_thing(
    report: ScanReport,
    seconds: Seq<char>,
    shares: Seq<Seq<char>>,
)
    requires
        shares.len() == report.tree.children@.len(),
    ensures
        ({
            let lines = report_lines_of(report, seconds, shares);
            let children = report.tree.children@;
            let growers = report.top_growers@;
            let volume: int = if report.disk is Some {
                1
            } else {
                0
            };
            &&& lines.len() == 1 + volume + children.len() + if growers.len() > 0 {
                2 + growers.len() as int
            } else {
                0
            }
            &&& lines[0] == report.root@ + "  "@ + human_bytes_of(report.tree.size) + "  ("@
                + decimal_text(report.stats.files as nat) + " files, "@ + decimal_text(
                report.stats.dirs as nat,
            ) + " dirs, "@ + decimal_text(report.stats.errors as nat) + " errors, "@ + seconds
                + "s)"@
            &&& report.disk is Some ==> lines[1] == "volume: "@ + human_bytes_of(
                report.disk->0.used,
            ) + " used of "@ + human_bytes_of(report.disk->0.total) + " ("@ + human_bytes_of(
                report.disk->0.available,
            ) + " available)"@
            &&& forall|i: int|
                0 <= i < children.len() ==> {
                    let child = #[trigger] children[i];
                    let start = at_right(human_bytes_of(child.size), 10) + "  "@ + at_right(
                        shares[i],
                        5,
                    ) + "%  "@ + child.name@;
                    let line = lines[1 + volume + i];
                    &&& child.kind == NodeKind::Dir ==> line == start + "/"@
                    &&& child.kind != NodeKind::Dir ==> line == start
                }
            &&& growers.len() > 0 ==> lines[1 + volume + children.len()] == ""@ && lines[2 + volume
                + children.len()] == "grew since the previous snapshot:"@
            &&& forall|i: int|
                0 <= i < growers.len() && (#[trigger] growers[i]).delta > 0 ==> lines[3 + volume
                    + children.len() + i] == at_right(
                    "+"@ + human_bytes_of(growers[i].delta as u64),
                    10,
                ) + "  "@ + growers[i].path@
        }),
{
    let lines = report_lines_of(report, seconds, shares);
    let children = report.tree.children@;
    let growers = report.top_growers@;
    let volume: int = if report.disk is Some {
        1
    } else {
        0
    };
    reveal_strlit("");
    assert forall|i: int| 0 <= i < children.len() implies lines[1 + volume + i] == child_line_of(
        #[trigger] children[i],
        shares[i],
    ) by {}
    assert forall|text: Seq<char>| #[trigger] (text + ""@) == text by {
        assert(text + ""@ =~= text);
    }
    assert forall|i: int| 0 <= i < growers.len() implies lines[3 + volume + children.len() + i]
        == grower_line_of(#[trigger] growers[i]) by {}
}

/// A module that is not there is named, with those that are.
pub proof fn an_unknown_module_is_told_with_the_known(id: Seq<char>, known: Seq<Seq<char>>)
    ensures
        known.len() == 0 ==> unknown_module(id, known) == "unknown module "@ + id
            + ": this build ships no cleanup modules"@,
        known.len() > 0 ==> unknown_module(id, known) == "unknown module "@ + id
            + "; this build has: "@ + strung(known, ", "@),
{
}

} // verus!
