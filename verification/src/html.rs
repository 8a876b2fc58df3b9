//! The HTML that the page shows for a semigroup: its membership grid, its lambda
//! matrix, the table of least members modulo a number and the summary of Wilf's
//! quantities, each text stated character by character over the numbers it prints.
use vstd::prelude::*;
use crate::numsg::{count_members, apery_seq, lemma_seq_max, lemma_seq_min, seq_max, seq_min, seq_sum};
use crate::modules::wilf::{
    apery_mod, checked_total, diag_mod, diag_total, is_least_in_class, lambda_mod, lambda_of,
    least_classes, pair_sums_fit, pair_sums_fit_check, quotients_mod, row_sums_mod, row_total,
    selmer_terms, table_ok, WilfSet, CellKind, cell_kind_spec, is_square, lambda_stats,
    comparison_terms, mat_row_total, mat_diag_total, running_max, running_min, generatewilf_ok,
    generatewilf_post, lemma_generatewilf_table, lemma_apery_field_least, try_generatewilf, lemma_generatewilf_same_semigroup, lemma_reduce_positive, reduce, lemma_apery_mod_selmer, table_member,
};

verus! {

/// The character of the decimal digit `d`.
pub open spec fn digit_char(d: nat) -> char {
    (d + 48) as char
}

/// The decimal digits of `n`, most significant first, without sign or padding.
pub open spec fn decimal(n: nat) -> Seq<char>
    decreases n,
{
    if n < 10 {
        seq![digit_char(n)]
    } else {
        decimal(n / 10).push(digit_char(n % 10))
    }
}

/// std's `to_string` on a `usize` (its `Display`), which writes the decimal digits of
/// the number, most significant first, with no sign, padding or separator.
#[verifier::external_body]
fn decimal_string(n: usize) -> (s: String)
    ensures
        s@ == decimal(n as nat),
{
    n.to_string()
}

/// The texts `cell(0)`, ..., `cell(n - 1)` one after the other.
pub open spec fn joined(n: nat, cell: spec_fn(int) -> Seq<char>) -> Seq<char>
    decreases n,
{
    if n == 0 {
        Seq::empty()
    } else {
        joined((n - 1) as nat, cell) + cell(n - 1)
    }
}

/// The least members modulo `s`, by residue, of the table `set` with conductor `c`.
pub open spec fn least_mod_in(set: Seq<u8>, c: nat, s: nat) -> Seq<usize> {
    choose|ap: Seq<usize>| ap.len() == s && forall|r: int| 0 <= r < s ==> is_least_in_class(set, c, s, r as nat, #[trigger] ap[r] as nat)
}

/// The least members of the table of `w` modulo `s`, by residue.
pub open spec fn least_mod(w: WilfSet, s: nat) -> Seq<usize> {
    least_mod_in(w.set@, w.c as nat, s)
}

/// There is one list of least members modulo `s`.
pub proof fn lemma_least_mod(w: WilfSet, s: nat, ap: Seq<usize>)
    requires
        s > 0,
        least_classes(w, s, ap),
    ensures
        least_mod(w, s) == ap,
{
    let b = least_mod(w, s);
    assert(least_classes(w, s, b));
    assert forall|r: int| 0 <= r < s implies b[r] == ap[r] by {
        let x = b[r] as nat;
        let y = ap[r] as nat;
        assert(is_least_in_class(w.set@, w.c as nat, s, r as nat, x));
        assert(is_least_in_class(w.set@, w.c as nat, s, r as nat, y));
        if x < y {
            assert(x % s == r);
        } else if y < x {
            assert(y % s == r);
        }
    }
    assert(b =~= ap);
}

/// The cell of the least member of residue `i` in the table modulo `s`.
pub open spec fn least_cell(ap: Seq<usize>) -> spec_fn(int) -> Seq<char> {
    |i: int| "<td style='border:1px solid orange'>"@ + decimal(ap[i] as nat) + "</td>"@
}

/// The cell that names `i` where it is a member of the table and shows `-` where not.
pub open spec fn member_cell(set: Seq<u8>) -> spec_fn(int) -> Seq<char> {
    |i: int| "<td>"@ + (if set[i] == 1 { decimal(i as nat) } else { "-"@ }) + "</td>"@
}

/// The cell that marks `i` black where it is a member of the table.
pub open spec fn mark_cell(set: Seq<u8>) -> spec_fn(int) -> Seq<char> {
    |i: int| "<td>&nbsp;"@ + (if set[i] == 1 { "\u{2b1b}"@ } else { "_"@ }) + "&nbsp;</td>"@
}

/// The cell of the lambda entry `(i, j)` modulo `s`.
pub open spec fn lambda_cell(ap: Seq<usize>, s: nat, i: int) -> spec_fn(int) -> Seq<char> {
    |j: int| "<td style='border:1px solid black'><strong>&nbsp;"@ + decimal(lambda_of(ap, s, i, j) as nat)
        + "&nbsp;</strong></td>"@
}

/// Row `i` of the lambda entries modulo `s`, followed by its sum, the least member of
/// residue `i` and the sum along diagonal `i`.
pub open spec fn lambda_row(ap: Seq<usize>, s: nat) -> spec_fn(int) -> Seq<char> {
    |i: int| "<tr>"@ + joined(s, lambda_cell(ap, s, i)) + "<td>sum="@ + decimal(row_total(ap, s, i, s) as nat)
        + " apery_mod_s["@ + decimal(i as nat) + "]="@ + decimal(ap[i] as nat) + " diag["@ + decimal(i as nat)
        + "]="@ + decimal(diag_total(ap, s, i, s) as nat) + "</tr>"@
}

/// The cell of the quotient `(ap[i] - i) / s`.
pub open spec fn quotient_cell(ap: Seq<usize>, s: nat) -> spec_fn(int) -> Seq<char> {
    |i: int| "<td style='border:1px solid grey'>"@ + decimal(((ap[i] - i) / (s as int)) as nat) + "</td>"@
}

/// Every number that the table modulo `s` adds up fits in a `usize`.
pub open spec fn apery_table_fits(w: WilfSet, s: nat) -> bool {
    let ap = least_mod(w, s);
    let sum = seq_sum(ap);
    &&& pair_sums_fit(ap)
    &&& forall|d: int| 0 <= d < s ==> #[trigger] diag_total(ap, s, d, s) <= usize::MAX
    &&& forall|i: int| 0 <= i < s ==> #[trigger] row_total(ap, s, i, s) <= usize::MAX
    &&& sum <= usize::MAX
    &&& 2 * sum <= usize::MAX
    &&& w.count_gap * s <= usize::MAX
    &&& s * (s - 1) <= usize::MAX
    &&& w.count_gap * s + s * (s - 1) / 2 <= usize::MAX
}

/// The HTML of the table of least members modulo `s`: their row, the members and the
/// gaps below `s`, the lambda entries with row and diagonal sums, the quotients, and
/// the line of Selmer's formula.
pub open spec fn apery_table_text(w: WilfSet, s: nat) -> Seq<char> {
    let ap = least_mod(w, s);
    let sum = seq_sum(ap);
    "<div class='l-box-lrg pure-u-1 pure-u-md-5-5'>Apery mod "@ + decimal(s) + " <table>"@
        + "<tr>"@ + joined(s, least_cell(ap)) + "<td>&nbsp;</td></tr>"@
        + "<tr>"@ + joined(s, member_cell(w.set@)) + "<td>&nbsp;</td></tr>"@
        + "<tr>"@ + joined(s, mark_cell(w.set@)) + "<td>maxgap!</td></tr>"@
        + joined(s, lambda_row(ap, s))
        + "<tr>"@ + joined(s, quotient_cell(ap, s)) + "<td>&nbsp;=q</td></tr>"@
        + "</table>Summe aller Apery"@ + decimal(sum) + ", doppelter Durchschnitt "@
        + decimal(((2 * sum) / s) as nat) + ", gaps "@ + decimal(w.count_gap as nat) + " * s "@
        + decimal(s) + " + s(s-1)/2 ="@ + decimal((w.count_gap * s + s * (s - 1) / 2) as nat) + " </div>"@
}

/// Appends the cells `cell(0)`, ..., `cell(n - 1)` of the decimal numbers `v[i]`, each
/// between `open` and `close`.
fn append_number_cells(out: &mut String, v: &Vec<usize>, open: &str, close: &str, Ghost(cell): Ghost<spec_fn(int) -> Seq<char>>)
    requires
        forall|i: int| 0 <= i < v@.len() ==> #[trigger] cell(i) == open@ + decimal(v@[i] as nat) + close@,
    ensures
        final(out)@ == old(out)@ + joined(v@.len(), cell),
{
    let ghost start = out@;
    let mut i: usize = 0;
    while i < v.len()
        invariant
            i <= v@.len(),
            out@ == start + joined(i as nat, cell),
            forall|k: int| 0 <= k < v@.len() ==> #[trigger] cell(k) == open@ + decimal(v@[k] as nat) + close@,
        decreases v@.len() - i,
    {
        let mut piece = String::from_str(open);
        let number = decimal_string(v[i]);
        piece.append(number.as_str());
        piece.append(close);
        proof {
            assert(piece@ == cell(i as int));
            assert(joined((i + 1) as nat, cell) == joined(i as nat, cell) + cell(i as int));
        }
        out.append(piece.as_str());
        i = i + 1;
    }
}

/// Appends the cells of the members and gaps below `s`: `member_cell` where `marks` is
/// false, `mark_cell` where it is true.
fn append_member_cells(out: &mut String, set: &Vec<u8>, s: usize, marks: bool)
    requires
        s <= set@.len(),
    ensures
        final(out)@ == old(out)@ + joined(s as nat, if marks { mark_cell(set@) } else { member_cell(set@) }),
{
    let ghost cell = if marks { mark_cell(set@) } else { member_cell(set@) };
    let ghost start = out@;
    let mut i: usize = 0;
    while i < s
        invariant
            i <= s,
            s <= set@.len(),
            cell == (if marks { mark_cell(set@) } else { member_cell(set@) }),
            out@ == start + joined(i as nat, cell),
        decreases s - i,
    {
        let mut piece: String;
        if marks {
            piece = String::from_str("<td>&nbsp;");
            if set[i] == 1 {
                piece.append("\u{2b1b}");
            } else {
                piece.append("_");
            }
            piece.append("&nbsp;</td>");
        } else {
            piece = String::from_str("<td>");
            if set[i] == 1 {
                let number = decimal_string(i);
                piece.append(number.as_str());
            } else {
                piece.append("-");
            }
            piece.append("</td>");
        }
        proof {
            assert(piece@ == cell(i as int));
            assert(joined((i + 1) as nat, cell) == joined(i as nat, cell) + cell(i as int));
        }
        out.append(piece.as_str());
        i = i + 1;
    }
}

/// The HTML table of the least members of the semigroup of `wilf` modulo `s`, with the
/// lambda entries, their row and diagonal sums, the quotients and Selmer's formula;
/// `None` where one of the numbers it adds up does not fit in a `usize`.
pub fn get_apery_for_modulus(wilf: &WilfSet, s: usize) -> (res: Option<String>)
    requires
        table_ok(*wilf),
        s > 0,
        s <= wilf.set@.len(),
        2 * s <= usize::MAX,
        wilf.c + s <= usize::MAX,
    ensures
        res is Some <==> apery_table_fits(*wilf, s as nat),
        res matches Some(h) ==> h@ == apery_table_text(*wilf, s as nat),
{
    let ap = apery_mod(wilf, s);
    proof {
        lemma_least_mod(*wilf, s as nat, ap@);
    }
    if !pair_sums_fit_check(&ap) {
        return None;
    }
    let diag = match diag_mod(wilf, &ap, s) {
        Some(v) => v,
        None => return None,
    };
    let rows = match row_sums_mod(wilf, &ap, s) {
        Some(v) => v,
        None => return None,
    };
    let total = match checked_total(&ap) {
        Some(t) => t,
        None => return None,
    };
    let (double_avg, selmer) = match selmer_terms(total, s, wilf.count_gap) {
        Some(t) => t,
        None => return None,
    };
    let ghost sn = s as nat;
    let ghost apv = ap@;
    let mut res = String::from_str("<div class='l-box-lrg pure-u-1 pure-u-md-5-5'>Apery mod ");
    let number = decimal_string(s);
    res.append(number.as_str());
    res.append(" <table>");
    res.append("<tr>");
    append_number_cells(&mut res, &ap, "<td style='border:1px solid orange'>", "</td>", Ghost(least_cell(apv)));
    res.append("<td>&nbsp;</td></tr>");
    res.append("<tr>");
    append_member_cells(&mut res, &wilf.set, s, false);
    res.append("<td>&nbsp;</td></tr>");
    res.append("<tr>");
    append_member_cells(&mut res, &wilf.set, s, true);
    res.append("<td>maxgap!</td></tr>");
    let ghost before_rows = res@;
    let mut i: usize = 0;
    while i < s
        invariant
            table_ok(*wilf),
            s > 0,
            2 * s <= usize::MAX,
            least_classes(*wilf, sn, apv),
            apv == ap@,
            sn == s,
            pair_sums_fit(apv),
            rows@.len() == s,
            diag@.len() == s,
            forall|k: int| 0 <= k < s ==> #[trigger] rows@[k] == row_total(apv, sn, k, sn),
            forall|k: int| 0 <= k < s ==> #[trigger] diag@[k] == diag_total(apv, sn, k, sn),
            i <= s,
            res@ == before_rows + joined(i as nat, lambda_row(apv, sn)),
        decreases s - i,
    {
        let mut entries: Vec<usize> = Vec::new();
        let mut j: usize = 0;
        while j < s
            invariant
                table_ok(*wilf),
                s > 0,
                2 * s <= usize::MAX,
                least_classes(*wilf, sn, apv),
                apv == ap@,
                sn == s,
                pair_sums_fit(apv),
                i < s,
                j <= s,
                entries@.len() == j,
                forall|k: int| 0 <= k < j ==> #[trigger] entries@[k] == lambda_of(apv, sn, i as int, k),
            decreases s - j,
        {
            let l = lambda_mod(wilf, &ap, s, i, j);
            entries.push(l);
            j = j + 1;
        }
        let mut line = String::from_str("<tr>");
        append_number_cells(&mut line, &entries, "<td style='border:1px solid black'><strong>&nbsp;", "&nbsp;</strong></td>",
            Ghost(lambda_cell(apv, sn, i as int)));
        line.append("<td>sum=");
        let number = decimal_string(rows[i]);
        line.append(number.as_str());
        line.append(" apery_mod_s[");
        let number = decimal_string(i);
        line.append(number.as_str());
        line.append("]=");
        let number = decimal_string(ap[i]);
        line.append(number.as_str());
        line.append(" diag[");
        let number = decimal_string(i);
        line.append(number.as_str());
        line.append("]=");
        let number = decimal_string(diag[i]);
        line.append(number.as_str());
        line.append("</tr>");
        proof {
            assert(line@ == lambda_row(apv, sn)(i as int));
            assert(joined((i + 1) as nat, lambda_row(apv, sn)) == joined(i as nat, lambda_row(apv, sn)) + lambda_row(apv, sn)(i as int));
        }
        res.append(line.as_str());
        i = i + 1;
    }
    res.append("<tr>");
    let q = quotients_mod(wilf, &ap, s);
    append_number_cells(&mut res, &q, "<td style='border:1px solid grey'>", "</td>", Ghost(quotient_cell(apv, sn)));
    res.append("<td>&nbsp;=q</td></tr>");
    res.append("</table>Summe aller Apery");
    let number = decimal_string(total);
    res.append(number.as_str());
    res.append(", doppelter Durchschnitt ");
    let number = decimal_string(double_avg);
    res.append(number.as_str());
    res.append(", gaps ");
    let number = decimal_string(wilf.count_gap);
    res.append(number.as_str());
    res.append(" * s ");
    let number = decimal_string(s);
    res.append(number.as_str());
    res.append(" + s(s-1)/2 =");
    let number = decimal_string(selmer);
    res.append(number.as_str());
    res.append(" </div>");
    Some(res)
}

/// What the page of `w` reads of it: a multiplicity with its Apéry set, generator flags and
/// square lambda matrix, and a membership table of a numerical semigroup that reaches a
/// conductor whose double fits in a `usize`.
pub open spec fn html_ready(w: WilfSet) -> bool {
    &&& w.g1 > 0
    &&& 2 * w.g1 <= usize::MAX
    &&& w.apery@.len() == w.g1
    &&& w.gen_flags@.len() == w.g1
    &&& is_square(w.lambda_matrix@, w.g1 as nat)
    &&& table_ok(w)
    &&& w.c > 0
    &&& 2 * w.c <= usize::MAX
    &&& w.maxgap < usize::MAX
}

/// The class of a cell of the membership grid.
pub open spec fn kind_class(k: CellKind) -> Seq<char> {
    match k {
        CellKind::Full => "wilf-full"@,
        CellKind::Generator => "wilf-generator"@,
        CellKind::Apery => "wilf-apery"@,
        CellKind::Empty => "wilf-empty"@,
    }
}

/// The cell of number `base + col` of the grid, in column `col`.
pub open spec fn grid_cell(w: WilfSet, base: int) -> spec_fn(int) -> Seq<char> {
    |col: int| "<td title=\""@ + decimal((base + col) as nat) + "\" class=\""@
        + kind_class(cell_kind_spec(w.set@, w.apery@, w.gen_flags@, base + col, col)) + "\">&nbsp</td>"@
}

/// Row `r` of the grid counted from the top: the numbers from `(height - r - 1) * g1` on.
pub open spec fn grid_row(w: WilfSet, height: nat) -> spec_fn(int) -> Seq<char> {
    |r: int| "<tr>"@ + joined(w.g1 as nat, grid_cell(w, (height - r - 1) * w.g1)) + "</tr>"@
}

/// The cell of entry `(i, j)` of the lambda matrix.
pub open spec fn matrix_cell(mat: Seq<Vec<usize>>, i: int) -> spec_fn(int) -> Seq<char> {
    |j: int| "<td class='lambda'>"@ + decimal(mat[i]@[j] as nat) + "&nbsp</td>"@
}

/// Row `i` of the lambda matrix with its sum, its diagonal sum and the two added.
pub open spec fn matrix_line(mat: Seq<Vec<usize>>, g1: nat) -> spec_fn(int) -> Seq<char> {
    |i: int| "<tr>"@ + joined(g1, matrix_cell(mat, i)) + "<td class='lambda'>apery["@ + decimal(i as nat)
        + "]<strong>"@ + decimal(mat_row_total(mat, i, g1)) + "</apery></td><td>diag["@ + decimal(i as nat)
        + "] "@ + decimal(mat_diag_total(mat, g1, i, g1)) + "</td><td>sum="@
        + decimal(mat_row_total(mat, i, g1) + mat_diag_total(mat, g1, i, g1)) + "</td>"@ + "</tr>"@
}

/// Item `k` of a list as `Debug` writes it: a comma and a space before all but the first.
pub open spec fn listed_item(v: Seq<usize>) -> spec_fn(int) -> Seq<char> {
    |k: int| (if k == 0 { Seq::<char>::empty() } else { ", "@ }) + decimal(v[k] as nat)
}

/// A list of numbers as `Debug` writes it: `[2, 3]`.
pub open spec fn listed(v: Seq<usize>) -> Seq<char> {
    "["@ + joined(v.len(), listed_item(v)) + "]"@
}

/// Item `k` of a list followed by a space.
pub open spec fn spaced_item(v: Seq<usize>) -> spec_fn(int) -> Seq<char> {
    |k: int| decimal(v[k] as nat) + " "@
}

/// The row sums of the lambda matrix of `w`.
pub open spec fn row_sums_of(w: WilfSet) -> Seq<usize> {
    Seq::new(w.g1 as nat, |i: int| mat_row_total(w.lambda_matrix@, i, w.g1 as nat) as usize)
}

/// The diagonal sums of the lambda matrix of `w`.
pub open spec fn diag_sums_of(w: WilfSet) -> Seq<usize> {
    Seq::new(w.g1 as nat, |i: int| mat_diag_total(w.lambda_matrix@, w.g1 as nat, i, w.g1 as nat) as usize)
}

/// The largest row sum of the lambda matrix of `w` (0 for none).
pub open spec fn max_row_sum(w: WilfSet) -> nat {
    running_max(row_sums_of(w), w.g1 as nat, 0)
}

/// The least diagonal sum of the lambda matrix of `w`, at most `double_avg_a`.
pub open spec fn min_diag_sum(w: WilfSet) -> nat {
    running_min(diag_sums_of(w), w.g1 as nat, w.double_avg_a as nat)
}

/// Every number that the page of `w` adds, multiplies or subtracts fits in a `usize`.
pub open spec fn wilf_html_fits(w: WilfSet) -> bool {
    let mat = w.lambda_matrix@;
    let g1 = w.g1 as nat;
    let e = w.e as int;
    let mx = max_row_sum(w) as int;
    let mn = min_diag_sum(w) as int;
    &&& forall|i: int| 0 <= i < g1 ==> #[trigger] mat_row_total(mat, i, g1) + mat_diag_total(mat, g1, i, g1) <= usize::MAX
    &&& e >= 2
    &&& (e - 2) * mx <= usize::MAX
    &&& e * mn <= usize::MAX
    &&& (e - 2) * mx >= e * mn
    &&& (e - 2) * (g1 - 1) <= usize::MAX
    &&& apery_table_fits(w, w.c as nat)
}

/// The summary of `w`: its minimal generators and Wilf's quantities, the extreme row and
/// diagonal sums of the lambda matrix, the Apéry set, and a form that starts again from
/// the generators.
pub open spec fn summary_text(w: WilfSet) -> Seq<char> {
    summary_head(w) + summary_counts(w) + summary_after_counts(w)
}

/// The start of the summary: the minimal generators and the embedding dimension.
pub open spec fn summary_head(w: WilfSet) -> Seq<char> {
    "<div class=\"l-box-lrg pure-u-1 pure-u-md-5-5\">"@ + listed(w.gen_set@) + " <strong>e</strong>="@
        + decimal(w.e as nat)
}

/// The counts of the summary: the conductor, the members below it and the gaps.
pub open spec fn summary_counts(w: WilfSet) -> Seq<char> {
    ",<strong>c</strong>="@ + decimal((w.maxgap + 1) as nat) + ",<strong>#set</strong>="@
        + decimal(w.count_set as nat) + ",<strong>#gaps=</strong>"@ + decimal(w.count_gap as nat)
}

/// The grid, the lambda matrix and the table modulo the conductor of `w`, under the title.
pub open spec fn page_text(w: WilfSet, title: Seq<char>) -> Seq<char> {
    let g1 = w.g1 as nat;
    let height = w.set@.len() / g1;
    "<div class=\"l-box-lrg pure-u-1 pure-u-md-5-5\">"@ + "<h3>"@ + title + " "@
        + joined(w.gen_set@.len(), spaced_item(w.gen_set@)) + "</h3>"@
        + "<table class=\"wilf\" width=\"100%\">"@ + joined(height, grid_row(w, height))
        + "</table><hr/><br/>"@ + "Apery mod g1 <table class='lambda'>"@
        + joined(g1, matrix_line(w.lambda_matrix@, g1)) + "</table></div>"@
        + apery_table_text(w, w.c as nat)
}

/// The HTML of `w` under `title`: for the title `Input` the whole page around the summary,
/// for any other title the summary alone.
#[verifier::opaque]
pub open spec fn wilf_html_text(w: WilfSet, title: Seq<char>) -> Seq<char> {
    if title == "Input"@ {
        page_text(w, title) + summary_text(w) + "</div>"@
    } else {
        summary_text(w)
    }
}

/// Whether `title` reads `Input`.
fn is_input_title(title: &str) -> (b: bool)
    ensures
        b == (title@ == "Input"@),
{
    let key = "Input";
    let n = title.unicode_len();
    if n != key.unicode_len() {
        return false;
    }
    let mut i: usize = 0;
    while i < n
        invariant
            n == title@.len(),
            n == key@.len(),
            key@ == "Input"@,
            i <= n,
            forall|k: int| 0 <= k < i ==> title@[k] == key@[k],
        decreases n - i,
    {
        let got = title.get_char(i);
        let want = key.get_char(i);
        if got != want {
            return false;
        }
        i = i + 1;
    }
    assert(title@ =~= key@);
    true
}

/// Appends `v` as `Debug` writes a list of numbers.
fn append_listed(out: &mut String, v: &Vec<usize>)
    ensures
        final(out)@ == old(out)@ + listed(v@),
{
    let ghost start = out@;
    out.append("[");
    let mut k: usize = 0;
    while k < v.len()
        invariant
            k <= v@.len(),
            out@ == start + "["@ + joined(k as nat, listed_item(v@)),
        decreases v@.len() - k,
    {
        let mut piece = String::new();
        if k > 0 {
            piece.append(", ");
        }
        let number = decimal_string(v[k]);
        piece.append(number.as_str());
        proof {
            assert(piece@ == listed_item(v@)(k as int));
            assert(joined((k + 1) as nat, listed_item(v@)) == joined(k as nat, listed_item(v@)) + listed_item(v@)(k as int));
        }
        out.append(piece.as_str());
        k = k + 1;
    }
    out.append("]");
}

/// Appends each number of `v` followed by a space.
fn append_spaced(out: &mut String, v: &Vec<usize>)
    ensures
        final(out)@ == old(out)@ + joined(v@.len(), spaced_item(v@)),
{
    let ghost start = out@;
    let mut k: usize = 0;
    while k < v.len()
        invariant
            k <= v@.len(),
            out@ == start + joined(k as nat, spaced_item(v@)),
        decreases v@.len() - k,
    {
        let mut piece = decimal_string(v[k]);
        piece.append(" ");
        proof {
            assert(piece@ == spaced_item(v@)(k as int));
            assert(joined((k + 1) as nat, spaced_item(v@)) == joined(k as nat, spaced_item(v@)) + spaced_item(v@)(k as int));
        }
        out.append(piece.as_str());
        k = k + 1;
    }
}

/// Appends the membership grid of `w`, its top row first.
fn append_grid(out: &mut String, w: &WilfSet)
    requires
        html_ready(*w),
    ensures
        final(out)@ == old(out)@ + joined(w.set@.len() / (w.g1 as nat), grid_row(*w, w.set@.len() / (w.g1 as nat))),
{
    let ghost start = out@;
    let height = w.height();
    let g1 = w.g1;
    let len = w.set.len();
    let ghost hn = height as nat;
    assert(height * g1 <= w.set@.len()) by (nonlinear_arith)
        requires
            height == w.set@.len() / (g1 as nat),
            g1 > 0,
    {
    }
    let mut r: usize = 0;
    while r < height
        invariant
            html_ready(*w),
            g1 == w.g1,
            hn == height,
            height == w.set@.len() / (g1 as nat),
            height * g1 <= w.set@.len(),
            len == w.set@.len(),
            r <= height,
            out@ == start + joined(r as nat, grid_row(*w, hn)),
        decreases height - r,
    {
        assert((height - r - 1) * g1 + g1 <= height * g1) by (nonlinear_arith)
            requires
                r < height,
        {
        }
        let base = (height - r - 1) * g1;
        let mut line = String::from_str("<tr>");
        let ghost line_start = line@;
        let mut c: usize = 0;
        while c < g1
            invariant
                html_ready(*w),
                g1 == w.g1,
                base + g1 <= w.set@.len(),
                len == w.set@.len(),
                c <= g1,
                line@ == line_start + joined(c as nat, grid_cell(*w, base as int)),
            decreases g1 - c,
        {
            let index = base + c;
            let mut piece = String::from_str("<td title=\"");
            let number = decimal_string(index);
            piece.append(number.as_str());
            piece.append("\" class=\"");
            match w.cell_kind(index, c) {
                CellKind::Full => piece.append("wilf-full"),
                CellKind::Generator => piece.append("wilf-generator"),
                CellKind::Apery => piece.append("wilf-apery"),
                CellKind::Empty => piece.append("wilf-empty"),
            }
            piece.append("\">&nbsp</td>");
            proof {
                assert(piece@ == grid_cell(*w, base as int)(c as int));
                assert(joined((c + 1) as nat, grid_cell(*w, base as int))
                    == joined(c as nat, grid_cell(*w, base as int)) + grid_cell(*w, base as int)(c as int));
            }
            line.append(piece.as_str());
            c = c + 1;
        }
        line.append("</tr>");
        proof {
            assert((height - r - 1) * g1 == base);
            assert(line@ == grid_row(*w, hn)(r as int));
            assert(joined((r + 1) as nat, grid_row(*w, hn)) == joined(r as nat, grid_row(*w, hn)) + grid_row(*w, hn)(r as int));
        }
        out.append(line.as_str());
        r = r + 1;
    }
}

/// Appends the rows of the lambda matrix of `w` with their sums, given the row sums and
/// diagonal sums; false, with the text left partial, where a row sum and its diagonal sum
/// add up past a `usize`.
fn append_matrix(out: &mut String, w: &WilfSet, rows: &Vec<usize>, diags: &Vec<usize>) -> (ok: bool)
    requires
        html_ready(*w),
        rows@.len() == w.g1,
        diags@.len() == w.g1,
        forall|i: int| 0 <= i < w.g1 ==> #[trigger] rows@[i] == mat_row_total(w.lambda_matrix@, i, w.g1 as nat),
        forall|i: int| 0 <= i < w.g1 ==> #[trigger] diags@[i] == mat_diag_total(w.lambda_matrix@, w.g1 as nat, i, w.g1 as nat),
    ensures
        ok <==> forall|i: int| 0 <= i < w.g1 ==> #[trigger] mat_row_total(w.lambda_matrix@, i, w.g1 as nat)
            + mat_diag_total(w.lambda_matrix@, w.g1 as nat, i, w.g1 as nat) <= usize::MAX,
        ok ==> final(out)@ == old(out)@ + joined(w.g1 as nat, matrix_line(w.lambda_matrix@, w.g1 as nat)),
{
    let ghost start = out@;
    let ghost mat = w.lambda_matrix@;
    let ghost gn = w.g1 as nat;
    let g1 = w.g1;
    let mut i: usize = 0;
    while i < g1
        invariant
            html_ready(*w),
            g1 == w.g1,
            gn == g1,
            mat == w.lambda_matrix@,
            rows@.len() == g1,
            diags@.len() == g1,
            forall|k: int| 0 <= k < g1 ==> #[trigger] rows@[k] == mat_row_total(mat, k, gn),
            forall|k: int| 0 <= k < g1 ==> #[trigger] diags@[k] == mat_diag_total(mat, gn, k, gn),
            forall|k: int| 0 <= k < i ==> #[trigger] mat_row_total(mat, k, gn) + mat_diag_total(mat, gn, k, gn) <= usize::MAX,
            i <= g1,
            out@ == start + joined(i as nat, matrix_line(mat, gn)),
        decreases g1 - i,
    {
        let both = match rows[i].checked_add(diags[i]) {
            Some(v) => v,
            None => return false,
        };
        let mut line = String::from_str("<tr>");
        let entries = &w.lambda_matrix[i];
        append_number_cells(&mut line, entries, "<td class='lambda'>", "&nbsp</td>", Ghost(matrix_cell(mat, i as int)));
        line.append("<td class='lambda'>apery[");
        let number = decimal_string(i);
        line.append(number.as_str());
        line.append("]<strong>");
        let number = decimal_string(rows[i]);
        line.append(number.as_str());
        line.append("</apery></td><td>diag[");
        let number = decimal_string(i);
        line.append(number.as_str());
        line.append("] ");
        let number = decimal_string(diags[i]);
        line.append(number.as_str());
        line.append("</td><td>sum=");
        let number = decimal_string(both);
        line.append(number.as_str());
        line.append("</td>");
        line.append("</tr>");
        proof {
            assert(line@ == matrix_line(mat, gn)(i as int));
            assert(joined((i + 1) as nat, matrix_line(mat, gn)) == joined(i as nat, matrix_line(mat, gn)) + matrix_line(mat, gn)(i as int));
        }
        out.append(line.as_str());
        i = i + 1;
    }
    true
}

impl WilfSet {
    /// The HTML of this semigroup under `title`: for `Input` the membership grid, the lambda
    /// matrix, the table modulo the conductor and the summary, for any other title the
    /// summary alone; `None` where a number that it adds, multiplies or subtracts does not
    /// fit in a `usize`.
    pub fn to_html(&self, title: &str) -> (res: Option<String>)
        requires
            html_ready(*self),
        ensures
            res is Some <==> wilf_html_fits(*self),
            res matches Some(h) ==> h@ == wilf_html_text(*self, title@),
    {
        let stats = match lambda_stats(self) {
            Some(st) => st,
            None => return None,
        };
        proof {
            assert(stats.row_sums@ =~= row_sums_of(*self));
            assert(stats.diag_sums@ =~= diag_sums_of(*self));
        }
        let mut page = String::from_str("<div class=\"l-box-lrg pure-u-1 pure-u-md-5-5\">");
        page.append("<h3>");
        page.append(title);
        page.append(" ");
        append_spaced(&mut page, &self.gen_set);
        page.append("</h3>");
        page.append("<table class=\"wilf\" width=\"100%\">");
        append_grid(&mut page, self);
        page.append("</table><hr/><br/>");
        page.append("Apery mod g1 <table class='lambda'>");
        if !append_matrix(&mut page, self, &stats.row_sums, &stats.diag_sums) {
            return None;
        }
        page.append("</table></div>");
        let (a, b, diff, bound) = match comparison_terms(self.e, stats.max_apery, stats.min_diag, self.g1) {
            Some(t) => t,
            None => return None,
        };
        let table = match get_apery_for_modulus(self, self.c) {
            Some(t) => t,
            None => return None,
        };
        page.append(table.as_str());
        let mut summary = String::from_str("<div class=\"l-box-lrg pure-u-1 pure-u-md-5-5\">");
        append_listed(&mut summary, &self.gen_set);
        summary.append(" <strong>e</strong>=");
        let number = decimal_string(self.e);
        summary.append(number.as_str());
        let mut counts = String::from_str(",<strong>c</strong>=");
        let number = decimal_string(self.maxgap + 1);
        counts.append(number.as_str());
        counts.append(",<strong>#set</strong>=");
        let number = decimal_string(self.count_set);
        counts.append(number.as_str());
        counts.append(",<strong>#gaps=</strong>");
        let number = decimal_string(self.count_gap);
        counts.append(number.as_str());
        let mut tail = String::from_str("  <strong>e*#set-c=</strong>");
        let number = decimal_string(self.defect);
        tail.append(number.as_str());
        tail.append(" ratio: ");
        tail.append("<script>document.write((");
        let number = decimal_string(self.count_set);
        tail.append(number.as_str());
        tail.append("/");
        let number = decimal_string(self.c);
        tail.append(number.as_str());
        tail.append(").toFixed(4));</script>");
        tail.append("<br/>");
        tail.append("max_apery ");
        let number = decimal_string(stats.max_apery);
        tail.append(number.as_str());
        tail.append(" min_diag ");
        let number = decimal_string(stats.min_diag);
        tail.append(number.as_str());
        tail.append(" ");
        tail.append(" (e-2)*max_a ");
        let number = decimal_string(a);
        tail.append(number.as_str());
        tail.append(" - e*min_diag ");
        let number = decimal_string(b);
        tail.append(number.as_str());
        tail.append(" = &nbsp;&nbsp;");
        let number = decimal_string(diff);
        tail.append(number.as_str());
        tail.append(" verglichen mit (e-2)(g1-1) ");
        let number = decimal_string(bound);
        tail.append(number.as_str());
        tail.append("<br/>");
        tail.append("Apery ");
        append_listed(&mut tail, &self.apery);
        tail.append(" Max gap ");
        let number = decimal_string(self.c - 1);
        tail.append(number.as_str());
        tail.append(" double_avg ");
        let number = decimal_string(self.double_avg_a);
        tail.append(number.as_str());
        tail.append("\n\n            <form method=\"post\" action=\"/\">\n            <input id=\"numbers\" type=\"hidden\" name=\"numbers\" value=\"");
        append_spaced(&mut tail, &self.gen_set);
        tail.append("\">\n            <input id=\"samples\" type=\"hidden\" name=\"samples\" value=\"100\">\n            <button type=\"submit\" class=\"pure-button\">hier weitermachen</button>\n            </form>\n\n        ");
        tail.append("</p></div>");
        summary.append(counts.as_str());
        summary.append(tail.as_str());
        proof {
            reveal(wilf_html_text);
        }
        if is_input_title(title) {
            page.append(summary.as_str());
            page.append("</div>");
            Some(page)
        } else {
            Some(summary)
        }
    }
}

proof fn lemma_max_below_sum(v: Seq<usize>)
    ensures
        seq_max(v) <= seq_sum(v),
    decreases v.len(),
{
    if v.len() > 0 {
        lemma_max_below_sum(v.drop_last());
    }
}

/// Every semigroup that `generatewilf` returns can be drawn as a page.
pub proof fn lemma_generatewilf_html_ready(inp: Seq<usize>, w: WilfSet)
    requires
        generatewilf_ok(inp),
        generatewilf_post(inp, w),
    ensures
        html_ready(w),
{
    let g = reduce(inp);
    let m = seq_min(g);
    let mx = seq_max(g);
    let ap = apery_seq(g, m);
    lemma_generatewilf_table(inp, w);
    lemma_reduce_positive(inp);
    lemma_seq_min(g);
    lemma_seq_max(g);
    assert(m <= mx);
    assert(2 * m <= mx * mx) by (nonlinear_arith)
        requires
            2 <= m <= mx,
    {
    }
    lemma_max_below_sum(ap);
}

/// The table that the page prints modulo the multiplicity of a result of `generatewilf`
/// lists its Apéry set.
pub proof fn lemma_multiplicity_table_is_apery(inp: Seq<usize>, w: WilfSet)
    requires
        generatewilf_ok(inp),
        generatewilf_post(inp, w),
    ensures
        least_mod(w, w.g1 as nat) == w.apery@,
{
    lemma_apery_field_least(inp, w);
    lemma_generatewilf_html_ready(inp, w);
    lemma_least_mod(w, w.g1 as nat, w.apery@);
}

/// The page of result `k` under the title `Input`.
pub open spec fn input_page(ws: Seq<WilfSet>) -> spec_fn(int) -> Seq<char> {
    |k: int| wilf_html_text(ws[k], "Input"@)
}

/// `generatewilf` accepts `s`, and the numbers of the page of its result fit.
pub open spec fn input_page_ok(s: Seq<usize>) -> bool {
    &&& generatewilf_ok(s)
    &&& forall|w: WilfSet| generatewilf_post(s, w) ==> #[trigger] wilf_html_fits(w)
}

/// Every list of `sets` is one that `generatewilf` accepts, with a page whose numbers fit.
pub open spec fn input_pages_ok(sets: Seq<Vec<usize>>) -> bool {
    forall|k: int| 0 <= k < sets.len() ==> input_page_ok(#[trigger] sets[k]@)
}

/// The page under the title `Input` of the semigroup of `input`, with the semigroup;
/// `None` where `generatewilf` refuses the list or the page's numbers do not fit.
fn one_input_page(input: &Vec<usize>) -> (res: Option<(String, WilfSet)>)
    ensures
        res is Some <==> input_page_ok(input@),
        res matches Some(r) ==> generatewilf_post(input@, r.1) && r.0@ == wilf_html_text(r.1, "Input"@),
{
    let w = match try_generatewilf(input.as_slice()) {
        Some(w) => w,
        None => return None,
    };
    proof {
        lemma_generatewilf_html_ready(input@, w);
    }
    match w.to_html("Input") {
        Some(page) => {
            proof {
                assert forall|w2: WilfSet| generatewilf_post(input@, w2) implies #[trigger] wilf_html_fits(w2) by {
                    lemma_html_fits_same(input@, w, w2);
                }
            }
            Some((page, w))
        },
        None => None,
    }
}

/// The pages of the lists typed into the form, one after the other under the title
/// `Input`, with the semigroups they show; `None` where a list is one that `generatewilf`
/// refuses or a page's numbers do not fit.
pub fn input_pages(sets: &Vec<Vec<usize>>) -> (res: Option<(String, Vec<WilfSet>)>)
    ensures
        res is Some <==> input_pages_ok(sets@),
        res matches Some(r) ==> {
            &&& r.1@.len() == sets@.len()
            &&& forall|k: int| 0 <= k < sets@.len() ==> generatewilf_post(sets@[k]@, #[trigger] r.1@[k])
            &&& r.0@ == joined(sets@.len(), input_page(r.1@))
        },
{
    let mut html = String::new();
    let mut ws: Vec<WilfSet> = Vec::new();
    let mut k: usize = 0;
    while k < sets.len()
        invariant
            0 <= k <= sets@.len(),
            ws@.len() == k,
            forall|i: int| 0 <= i < k ==> generatewilf_post(sets@[i]@, #[trigger] ws@[i]),
            forall|i: int| 0 <= i < k ==> input_page_ok(#[trigger] sets@[i]@),
            html@ == joined(k as nat, input_page(ws@)),
        decreases sets@.len() - k,
    {
        let (page, w) = match one_input_page(&sets[k]) {
            Some(r) => r,
            None => return None,
        };
        let ghost old_ws = ws@;
        ws.push(w);
        proof {
            assert(input_page(ws@)(k as int) == page@);
            assert forall|i: int| 0 <= i < k implies #[trigger] input_page(ws@)(i) == input_page(old_ws)(i) by {
                assert(ws@[i] == old_ws[i]);
            }
            lemma_joined_same(k as nat, input_page(ws@), input_page(old_ws));
            assert(joined((k + 1) as nat, input_page(ws@)) == joined(k as nat, input_page(ws@)) + input_page(ws@)(k as int));
        }
        html.append(page.as_str());
        k = k + 1;
    }
    Some((html, ws))
}

/// `joined` reads only the texts it joins.
proof fn lemma_joined_same(n: nat, f: spec_fn(int) -> Seq<char>, g: spec_fn(int) -> Seq<char>)
    requires
        forall|i: int| 0 <= i < n ==> #[trigger] f(i) == g(i),
    ensures
        joined(n, f) == joined(n, g),
    decreases n,
{
    if n > 0 {
        lemma_joined_same((n - 1) as nat, f, g);
    }
}

proof fn lemma_row_totals_same(m1: Seq<Vec<usize>>, m2: Seq<Vec<usize>>, g1: nat, i: int, n: nat)
    requires
        n <= g1,
        forall|a: int, b: int| 0 <= a < g1 && 0 <= b < g1 ==> #[trigger] m1[a]@[b] == m2[a]@[b],
        0 <= i < g1,
    ensures
        mat_row_total(m1, i, n) == mat_row_total(m2, i, n),
        mat_diag_total(m1, g1, i, n) == mat_diag_total(m2, g1, i, n),
    decreases n,
{
    if n > 0 {
        lemma_row_totals_same(m1, m2, g1, i, (n - 1) as nat);
        let j = (i + g1 - (n - 1)) % (g1 as int);
        assert(0 <= j < g1) by {
            vstd::arithmetic::div_mod::lemma_mod_bound(i + g1 - (n - 1), g1 as int);
        }
        assert(m1[n - 1]@[j] == m2[n - 1]@[j]);
        assert(m1[i]@[n - 1] == m2[i]@[n - 1]);
    }
}

/// Two results of `generatewilf` on one input have pages whose numbers fit alike.
proof fn lemma_html_fits_same(s: Seq<usize>, w1: WilfSet, w2: WilfSet)
    requires
        generatewilf_ok(s),
        generatewilf_post(s, w1),
        generatewilf_post(s, w2),
        wilf_html_fits(w1),
    ensures
        wilf_html_fits(w2),
{
    lemma_generatewilf_same_semigroup(s, s, w1, w2);
    let g1 = w1.g1 as nat;
    assert forall|i: int| 0 <= i < g1 implies #[trigger] mat_row_total(w1.lambda_matrix@, i, g1) == mat_row_total(w2.lambda_matrix@, i, g1) by {
        lemma_row_totals_same(w1.lambda_matrix@, w2.lambda_matrix@, g1, i, g1);
    }
    assert forall|i: int| 0 <= i < g1 implies #[trigger] mat_diag_total(w1.lambda_matrix@, g1, i, g1) == mat_diag_total(w2.lambda_matrix@, g1, i, g1) by {
        lemma_row_totals_same(w1.lambda_matrix@, w2.lambda_matrix@, g1, i, g1);
    }
    assert(row_sums_of(w1) =~= row_sums_of(w2));
    assert(diag_sums_of(w1) =~= diag_sums_of(w2));
    assert(least_mod(w1, w1.c as nat) == least_mod(w2, w2.c as nat));
    let mx = max_row_sum(w1);
    let mn = min_diag_sum(w1);
    assert(max_row_sum(w2) == mx);
    assert(min_diag_sum(w2) == mn);
    assert(apery_table_fits(w2, w2.c as nat));
    assert forall|i: int| 0 <= i < g1 implies #[trigger] mat_row_total(w2.lambda_matrix@, i, g1) + mat_diag_total(w2.lambda_matrix@, g1, i, g1) <= usize::MAX by {
        assert(mat_row_total(w1.lambda_matrix@, i, g1) + mat_diag_total(w1.lambda_matrix@, g1, i, g1) <= usize::MAX);
    }
}

/// The line under the table modulo a member `s` of the semigroup of `inp` adds up:
/// it prints the sum of the least members modulo `s`, the number of gaps of the semigroup
/// (the numbers below the conductor that are not members), `s`, and as the value of
/// `gaps * s + s (s - 1) / 2` again that sum (Selmer's formula).
pub proof fn lemma_selmer_line(inp: Seq<usize>, w: WilfSet, s: nat, ap: Seq<usize>)
    requires
        generatewilf_ok(inp),
        generatewilf_post(inp, w),
        s > 0,
        table_member(w.set@, w.c as nat, s),
        least_classes(w, s, ap),
    ensures
        exists|p: Seq<char>| apery_table_text(w, s) == p + "</table>Summe aller Apery"@ + decimal(seq_sum(ap))
            + ", doppelter Durchschnitt "@ + decimal(((2 * seq_sum(ap)) / s) as nat) + ", gaps "@
            + decimal((w.c - count_members(reduce(inp), w.c as nat)) as nat) + " * s "@ + decimal(s)
            + " + s(s-1)/2 ="@ + decimal(seq_sum(ap)) + " </div>"@,
{
    lemma_generatewilf_html_ready(inp, w);
    lemma_least_mod(w, s, ap);
    lemma_apery_mod_selmer(inp, w, s, ap);
    assert(w.count_gap == w.c - count_members(reduce(inp), w.c as nat));
    let sn = s;
    let sum = seq_sum(ap);
    let p = "<div class='l-box-lrg pure-u-1 pure-u-md-5-5'>Apery mod "@ + decimal(s) + " <table>"@
        + "<tr>"@ + joined(s, least_cell(ap)) + "<td>&nbsp;</td></tr>"@
        + "<tr>"@ + joined(s, member_cell(w.set@)) + "<td>&nbsp;</td></tr>"@
        + "<tr>"@ + joined(s, mark_cell(w.set@)) + "<td>maxgap!</td></tr>"@
        + joined(s, lambda_row(ap, s))
        + "<tr>"@ + joined(s, quotient_cell(ap, s)) + "<td>&nbsp;=q</td></tr>"@;
    assert((w.count_gap * sn + sn * (sn - 1) / 2) as nat == sum) by (nonlinear_arith)
        requires sn * w.count_gap + (sn * (sn - 1)) / 2 == sum;
    assert(apery_table_text(w, s) == p + "</table>Summe aller Apery"@ + decimal(sum)
            + ", doppelter Durchschnitt "@ + decimal(((2 * sum) / s) as nat) + ", gaps "@
            + decimal((w.c - count_members(reduce(inp), w.c as nat)) as nat) + " * s "@ + decimal(s)
            + " + s(s-1)/2 ="@ + decimal(sum) + " </div>"@);
}

proof fn lemma_regroup(a: Seq<char>, b: Seq<char>, c: Seq<char>, d: Seq<char>, e: Seq<char>)
    ensures
        a + (b + c + d) + e == (a + b) + c + (d + e),
{
    assert(a + (b + c + d) + e =~= (a + b) + c + (d + e));
}

/// `mid` with `p` before it and `q` after it.
pub open spec fn around(p: Seq<char>, mid: Seq<char>, q: Seq<char>) -> Seq<char> {
    p + mid + q
}

/// The rest of the summary after the counts: the defect, the ratio, the extreme row and
/// diagonal sums, the Apéry set and the form.
pub open spec fn summary_after_counts(w: WilfSet) -> Seq<char> {
    let e = w.e as int;
    let mx = max_row_sum(w) as int;
    let mn = min_diag_sum(w) as int;
    let gens = joined(w.gen_set@.len(), spaced_item(w.gen_set@));
    "  <strong>e*#set-c=</strong>"@ + decimal(w.defect as nat) + " ratio: "@
        + "<script>document.write(("@ + decimal(w.count_set as nat) + "/"@ + decimal(w.c as nat)
        + ").toFixed(4));</script>"@ + "<br/>"@
        + "max_apery "@ + decimal(mx as nat) + " min_diag "@ + decimal(mn as nat) + " "@
        + " (e-2)*max_a "@ + decimal(((e - 2) * mx) as nat) + " - e*min_diag "@ + decimal((e * mn) as nat)
        + " = &nbsp;&nbsp;"@ + decimal(((e - 2) * mx - e * mn) as nat) + " verglichen mit (e-2)(g1-1) "@
        + decimal(((e - 2) * (w.g1 - 1)) as nat) + "<br/>"@
        + "Apery "@ + listed(w.apery@) + " Max gap "@ + decimal((w.c - 1) as nat) + " double_avg "@
        + decimal(w.double_avg_a as nat)
        + "\n\n            <form method=\"post\" action=\"/\">\n            <input id=\"numbers\" type=\"hidden\" name=\"numbers\" value=\""@
        + gens
        + "\">\n            <input id=\"samples\" type=\"hidden\" name=\"samples\" value=\"100\">\n            <button type=\"submit\" class=\"pure-button\">hier weitermachen</button>\n            </form>\n\n        "@
        + "</p></div>"@
}

/// The summary of the page of the semigroup of `inp` prints, one after the other, its
/// conductor `c`, the number of its members below `c` and the number of its gaps (the
/// numbers below `c` that are not members), under the labels `c`, `#set` and `#gaps`.
pub proof fn lemma_summary_counts(inp: Seq<usize>, w: WilfSet, title: Seq<char>)
    requires
        generatewilf_ok(inp),
        generatewilf_post(inp, w),
    ensures
        exists|p: Seq<char>, q: Seq<char>| wilf_html_text(w, title) == #[trigger] around(p, ",<strong>c</strong>="@
            + decimal(w.c as nat) + ",<strong>#set</strong>="@ + decimal(count_members(reduce(inp), w.c as nat))
            + ",<strong>#gaps=</strong>"@ + decimal((w.c - count_members(reduce(inp), w.c as nat)) as nat), q),
{
    reveal(wilf_html_text);
    let n = count_members(reduce(inp), w.c as nat);
    assert(w.count_set == n);
    assert(w.maxgap + 1 == w.c);
    assert(w.count_gap == w.c - n);
    let head = summary_head(w);
    let counts = ",<strong>c</strong>="@ + decimal(w.c as nat) + ",<strong>#set</strong>="@ + decimal(n)
        + ",<strong>#gaps=</strong>"@ + decimal((w.c - n) as nat);
    let tail = summary_after_counts(w);
    assert(summary_counts(w) == counts);
    if title == "Input"@ {
        let page = page_text(w, title);
        lemma_regroup(page, head, counts, tail, "</div>"@);
        assert(wilf_html_text(w, title) == around(page + head, counts, tail + "</div>"@));
    } else {
        assert(wilf_html_text(w, title) == around(head, counts, tail));
    }
}

} // verus!
