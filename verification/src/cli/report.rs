//! The report of `storage-monitor scan` and the sizes in it.

use crate::action::model::Timestamp;
use crate::disk::DiskUsage;
use crate::scan::tree::{Cell, Node, NodeId, NodeKind, Tree};
use crate::scan::walker::{ScanResult, ScanStats};
use crate::snapshot::delta::Delta;
use crate::text::{decimal, decimal_text, digit, opt_text};
use vstd::prelude::*;

verus! {

#[derive(Debug)]
pub struct ScanReport {
    pub root: String,
    pub started_at: Timestamp,
    pub duration_ms: u64,
    pub stats: ScanStats,
    pub cancelled: bool,
    pub disk: Option<DiskUsage>,
    pub tree: ReportNode,
    pub snapshot: Option<String>,
    pub top_growers: Vec<Delta>,
}

#[derive(Debug)]
pub struct ReportNode {
    pub name: String,
    pub kind: NodeKind,
    pub size: u64,
    pub logical_size: u64,
    pub file_count: u64,
    pub mtime: i64,
    pub error: Option<String>,
    pub children: Vec<ReportNode>,
    /// True when children were cut by the depth or the number of the report.
    pub truncated: bool,
}

/// Whether `node` reports node `id` of a tree with what is below it: `depth` levels, and the
/// `top` largest of every directory.
pub open spec fn reports(
    node: ReportNode,
    cells: Seq<Cell>,
    id: int,
    depth: nat,
    top: int,
) -> bool
    decreases depth,
{
    let cell = cells[id];
    &&& node.name@ == cell.name
    &&& node.kind == cell.kind
    &&& node.size == cell.size
    &&& node.logical_size == cell.logical_size
    &&& node.file_count == cell.file_count
    &&& node.mtime == cell.mtime
    &&& opt_text(node.error) == cell.error
    &&& if depth == 0 {
        node.children@.len() == 0 && node.truncated == (cell.count > 0)
    } else {
        &&& node.children@.len() == if cell.count <= top {
            cell.count as int
        } else {
            top
        }
        &&& node.truncated == (cell.count > top)
        &&& forall|k: int|
            0 <= k < node.children@.len() ==> reports(
                #[trigger] node.children@[k],
                cells,
                cell.first + k,
                (depth - 1) as nat,
                top,
            )
    }
}

/// The report of a scan's tree.
pub fn report_tree(result: &ScanResult, depth: usize, top: usize) -> (node: ReportNode)
    requires
        result.tree.cells().len() > 0,
    ensures
        reports(node, result.tree.cells(), 0, depth as nat, top as int),
{
    build(&result.tree, Tree::ROOT, depth, top)
}

fn build(tree: &Tree, id: NodeId, depth: usize, top: usize) -> (report: ReportNode)
    requires
        id < tree.cells().len(),
    ensures
        reports(report, tree.cells(), id as int, depth as nat, top as int),
    decreases depth,
{
    proof {
        use_type_invariant(tree);
    }
    let ghost cells = tree.cells();
    let first: NodeId = tree.children(id).start;
    let count: u32 = tree.child_count(id);
    let mut children: Vec<ReportNode> = Vec::new();
    assert(cells[id as int].count == count);
    let truncated: bool = if depth == 0 {
        count > 0
    } else {
        let taken: u32 = if count as usize <= top {
            count
        } else {
            top as u32
        };
        let mut k: u32 = 0;
        while k < taken
            invariant
                k <= taken <= count,
                cells == tree.cells(),
                id < cells.len(),
                cells.len() <= u32::MAX,
                first == cells[id as int].first,
                count == cells[id as int].count,
                count > 0 ==> first + count <= cells.len(),
                depth > 0,
                children@.len() == k,
                forall|x: int|
                    0 <= x < k ==> reports(
                        #[trigger] children@[x],
                        cells,
                        first + x,
                        (depth - 1) as nat,
                        top as int,
                    ),
            decreases taken - k,
        {
            children.push(build(tree, first + k, depth - 1, top));
            k += 1;
        }
        count as usize > top
    };
    let node: &Node = match tree.get(id) {
        Some(node) => node,
        None => tree.root(),
    };
    let error: Option<String> = match tree.error(id) {
        Some(message) => Some(message.to_owned()),
        None => None,
    };
    ReportNode {
        name: (*node.name).to_owned(),
        kind: node.kind,
        size: node.size,
        logical_size: node.logical_size,
        file_count: node.file_count as u64,
        mtime: node.mtime,
        error,
        children,
        truncated,
    }
}

/// The one of a double-precision number of at least one, counted in its smallest steps: such
/// a number is a whole number of them.
pub const ONE: u128 = 4503599627370496;

/// `n / d` to the nearest whole number, and to the even one where two are as near.
pub open spec fn nearest(n: nat, d: nat) -> nat {
    let low = n / d;
    let rest = n % d;
    if 2 * rest > d || (2 * rest == d && low % 2 == 1) {
        low + 1
    } else {
        low
    }
}

/// The largest power of two that is no more than `n`, and one for less than that.
pub open spec fn power_below(n: nat) -> nat
    decreases n,
{
    if n < 2 {
        1
    } else {
        2 * power_below(n / 2)
    }
}

/// `n` as a double-precision number, in steps of `1 / ONE`: to 53 binary digits.
pub open spec fn double_of(n: nat) -> nat {
    nearest(n * ONE as nat, power_below(n)) * power_below(n)
}

/// A double-precision number divided by a thousand, as one again.
pub open spec fn thousandth(x: nat) -> nat {
    let step = power_below(x / (1000 * ONE as nat));
    nearest(x, 1000 * step) * step
}

/// A size divided by a thousand as long as there is a unit for it: what is left, and how often.
pub open spec fn in_units(x: nat, unit: nat) -> (nat, nat)
    decreases 5 - unit,
{
    if x >= 1000 * ONE && unit < 5 {
        in_units(thousandth(x), unit + 1)
    } else {
        (x, unit)
    }
}

/// The name of a unit.
pub open spec fn unit_name(unit: nat) -> Seq<char> {
    if unit == 0 {
        " B"@
    } else if unit == 1 {
        " KB"@
    } else if unit == 2 {
        " MB"@
    } else if unit == 3 {
        " GB"@
    } else if unit == 4 {
        " TB"@
    } else {
        " PB"@
    }
}

/// A number of tenths in decimal, with one digit behind the point.
pub open spec fn tenths_text(tenths: nat) -> Seq<char> {
    decimal_text(tenths / 10) + "."@ + seq![digit(tenths % 10)]
}

/// A size for people: bytes as they are below a thousand, and above that the size in the
/// largest decimal unit it fills, in double precision, to one digit.
pub open spec fn human_bytes_of(bytes: u64) -> Seq<char> {
    let (left, unit) = in_units(double_of(bytes as nat), 0);
    if unit == 0 {
        decimal_text(bytes as nat) + " B"@
    } else {
        tenths_text(nearest(10 * left, ONE as nat)) + unit_name(unit)
    }
}

fn round(n: u128, d: u128) -> (r: u128)
    requires
        0 < d <= 0x4000_0000_0000_0000_0000_0000_0000_0000,
        n <= 0x4000_0000_0000_0000_0000_0000_0000_0000,
    ensures
        r == nearest(n as nat, d as nat),
        r <= n / d + 1,
{
    let low: u128 = n / d;
    let rest: u128 = n % d;
    assert(low <= n) by (nonlinear_arith)
        requires
            low == n / d,
            d > 0,
    ;
    if 2 * rest > d || (2 * rest == d && low % 2 == 1) {
        low + 1
    } else {
        low
    }
}

fn power(n: u128) -> (p: u128)
    ensures
        p == power_below(n as nat),
        1 <= p,
        n >= 1 ==> p <= n,
        n == 0 ==> p == 1,
    decreases n,
{
    if n < 2 {
        1
    } else {
        let half: u128 = power(n / 2);
        2 * half
    }
}

proof fn rounding_grows_by_a_step(n: nat, d: nat, r: nat)
    requires
        d > 0,
        r <= n / d + 1,
    ensures
        r * d <= n + d,
{
    assert(r * d <= n + d) by (nonlinear_arith)
        requires
            d > 0,
            r <= n / d + 1,
    {
        assert((n / d) * d <= n);
        assert(r * d <= (n / d + 1) * d);
    }
}

/// A size as a double-precision number.
fn double(bytes: u64) -> (x: u128)
    ensures
        x == double_of(bytes as nat),
        x <= 0x20_0000_0000_0000_0000_0000_0000_0000,
{
    let p: u128 = power(bytes as u128);
    assert(bytes * ONE <= u64::MAX * ONE) by (nonlinear_arith)
        requires
            bytes <= u64::MAX,
    ;
    let n: u128 = bytes as u128 * ONE;
    let r: u128 = round(n, p);
    proof {
        rounding_grows_by_a_step(n as nat, p as nat, r as nat);
    }
    r * p
}

proof fn dividing_shrinks(x: nat, step: nat, r: nat)
    requires
        step > 0,
        r <= x / (1000 * step) + 1,
    ensures
        r * step <= x / 1000 + step,
{
    let q = x / (1000 * step);
    assert(q * step <= x / 1000) by (nonlinear_arith)
        requires
            q == x / (1000 * step),
            step > 0,
    {
        assert(q * (1000 * step) <= x);
        assert(q * (1000 * step) == 1000 * (q * step));
    }
    assert(r * step <= q * step + step) by (nonlinear_arith)
        requires
            r <= q + 1,
    ;
}

/// A double-precision number divided by a thousand.
fn divide(x: u128) -> (y: u128)
    requires
        x <= 0x20_0000_0000_0000_0000_0000_0000_0000,
    ensures
        y == thousandth(x as nat),
        y <= 0x2000_0000_0000_0000_0000_0000_0000,
{
    let units: u128 = x / (1000 * ONE);
    assert(units <= x / 4503599627370496000);
    let step: u128 = power(units);
    assert(step <= 0x4000_0000_0000_0000);
    let r: u128 = round(x, 1000 * step);
    proof {
        dividing_shrinks(x as nat, step as nat, r as nat);
    }
    r * step
}

/// A size for people: bytes as they are below a thousand, and above that the size in the
/// largest decimal unit it fills, to one digit.
pub fn human_bytes(bytes: u64) -> (text: String)
    ensures
        text@ == human_bytes_of(bytes),
{
    let mut left: u128 = double(bytes);
    let mut unit: u64 = 0;
    while left >= 1000 * ONE && unit < 5
        invariant
            unit <= 5,
            in_units(double_of(bytes as nat), 0) == in_units(left as nat, unit as nat),
            left <= 0x20_0000_0000_0000_0000_0000_0000_0000,
            unit > 0 ==> left <= 0x2000_0000_0000_0000_0000_0000_0000,
        decreases 5 - unit,
    {
        left = divide(left);
        unit += 1;
    }
    if unit == 0 {
        let mut text: String = decimal(bytes);
        text.append(" B");
        return text;
    }
    let tenths: u64 = round(10 * left, ONE) as u64;
    let mut text: String = decimal(tenths / 10);
    text.append(".");
    let last: String = decimal(tenths % 10);
    assert(last@ =~= seq![digit((tenths % 10) as nat)]);
    text.append(&last);
    if unit == 1 {
        text.append(" KB");
    } else if unit == 2 {
        text.append(" MB");
    } else if unit == 3 {
        text.append(" GB");
    } else if unit == 4 {
        text.append(" TB");
    } else {
        text.append(" PB");
    }
    text
}

} // verus!
