//! The URL template renderer. A template may hold `{...}` groups with `^`
//! placeholders; parameters arrive as one space-separated string. Each
//! placeholder consumes one parameter token (percent-encoded on output); a
//! group whose placeholder gets no token, or an empty one, is blanked out
//! whole; leftover tokens are appended, encoded, at the end; the braces
//! themselves never reach the output.
//!
//! The specification below follows the renderer's single scan: a stack of
//! open braces and hats, the hat list in group-closing order, and the
//! matched brace pairs.

use vstd::prelude::*;
use crate::state::LinkTable;
use crate::strings::{contains_char, first_index_of, lemma_first_index_of, push_char};

verus! {

/// What `urlencoding::encode` returns, as a function of the input text
/// alone.
pub uninterp spec fn url_encoded(s: Seq<char>) -> Seq<char>;

/// Relies on `urlencoding::encode`: percent-encodes the text for use in a
/// URL; the result depends on the input characters alone.
#[verifier::external_body]
fn encode_component(s: &str) -> (r: String)
    ensures
        r@ == url_encoded(s@),
{
    urlencoding::encode(s).into_owned()
}

/// The scan's running state: the open-brace/hat stack (bottom first), the
/// hats recorded so far as (hat position, closing brace position), and the
/// matched groups as (closing position, opening position).
pub struct ScanState {
    pub stack: Seq<(bool, usize)>,
    pub hats: Seq<(usize, usize)>,
    pub groups: Seq<(usize, usize)>,
}

/// Pops the stack down to (and including) the nearest open brace: the hat
/// positions popped on the way (most recent first), the brace's position
/// if one was there, and what is left of the stack.
pub open spec fn pop_to_open(stack: Seq<(bool, usize)>) -> (Seq<usize>, Option<usize>, Seq<
    (bool, usize),
>)
    decreases stack.len(),
{
    if stack.len() == 0 {
        (Seq::empty(), Option::None, Seq::empty())
    } else if !stack.last().0 {
        (Seq::empty(), Option::Some(stack.last().1), stack.drop_last())
    } else {
        let r = pop_to_open(stack.drop_last());
        (seq![stack.last().1] + r.0, r.1, r.2)
    }
}

/// The hats popped at a closing brace, oldest first, each paired with the
/// brace's position.
pub open spec fn hat_pairs(temp: Seq<usize>, close: usize) -> Seq<(usize, usize)> {
    temp.reverse().map(|j: int, h: usize| (h, close))
}

/// One character of the scan. An open brace is pushed; a closing brace
/// pops to its match, records the popped hats (oldest first) and the pair;
/// a hat is pushed only inside some group; anything else only adds its
/// output cell.
pub open spec fn scan_step(st: ScanState, c: char, i: usize) -> ScanState {
    if c == '{' {
        ScanState { stack: st.stack.push((false, i)), hats: st.hats, groups: st.groups }
    } else if c == '}' {
        let r = pop_to_open(st.stack);
        ScanState {
            stack: r.2,
            hats: st.hats + hat_pairs(r.0, i),
            groups: match r.1 {
                Option::Some(open) => st.groups.push((i, open)),
                Option::None => st.groups,
            },
        }
    } else if c == '^' {
        if st.stack.len() > 0 {
            ScanState { stack: st.stack.push((true, i)), hats: st.hats, groups: st.groups }
        } else {
            st
        }
    } else {
        st
    }
}

/// The scan after the first `n` characters.
pub open spec fn scan(t: Seq<char>, n: int) -> ScanState
    decreases n,
{
    if n <= 0 {
        ScanState { stack: Seq::empty(), hats: Seq::empty(), groups: Seq::empty() }
    } else {
        scan_step(scan(t, n - 1), t[n - 1], (n - 1) as usize)
    }
}

/// Every recorded position lies before `n`; a hat precedes its closing
/// brace; an opening brace precedes its closing one.
pub open spec fn scan_bounded(st: ScanState, n: int) -> bool {
    &&& forall|k: int| 0 <= k < st.stack.len() ==> (#[trigger] st.stack[k]).1 < n
    &&& forall|k: int|
        0 <= k < st.hats.len() ==> (#[trigger] st.hats[k]).0 < st.hats[k].1 < n
    &&& forall|k: int|
        0 <= k < st.groups.len() ==> (#[trigger] st.groups[k]).1 < st.groups[k].0 < n
}

/// What popping returns comes from the stack: positions below `b` stay
/// below `b`.
proof fn lemma_pop_to_open_bounded(stack: Seq<(bool, usize)>, b: int)
    requires
        forall|k: int| 0 <= k < stack.len() ==> (#[trigger] stack[k]).1 < b,
    ensures
        forall|k: int| 0 <= k < pop_to_open(stack).0.len() ==> (#[trigger] pop_to_open(
            stack,
        ).0[k]) < b,
        pop_to_open(stack).1 matches Option::Some(o) ==> o < b,
        forall|k: int|
            0 <= k < pop_to_open(stack).2.len() ==> (#[trigger] pop_to_open(stack).2[k]).1 < b,
    decreases stack.len(),
{
    if stack.len() > 0 && stack.last().0 {
        lemma_pop_to_open_bounded(stack.drop_last(), b);
    }
}

/// The scan's positions stay in bounds as it advances.
pub proof fn lemma_scan_bounded(t: Seq<char>, n: int)
    requires
        n <= t.len(),
        n <= usize::MAX,
    ensures
        scan_bounded(scan(t, n), n),
    decreases n,
{
    if n > 0 {
        lemma_scan_bounded(t, n - 1);
        let st = scan(t, n - 1);
        let c = t[n - 1];
        let i = n - 1;
        if c == '}' {
            lemma_pop_to_open_bounded(st.stack, i);
            let r = pop_to_open(st.stack);
            assert(forall|k: int|
                0 <= k < hat_pairs(r.0, i as usize).len() ==> (#[trigger] hat_pairs(
                    r.0,
                    i as usize,
                )[k]).0 == r.0[r.0.len() - 1 - k]);
        }
    }
}

/// A recorded pair is a pair of the group list.
pub proof fn lemma_lookup_open_is_member(groups: Seq<(usize, usize)>, close: usize)
    ensures
        lookup_open(groups, close) matches Option::Some(o) ==> exists|k: int|
            0 <= k < groups.len() && groups[k] == (close, o),
    decreases groups.len(),
{
    if groups.len() > 0 && groups[0].0 != close {
        lemma_lookup_open_is_member(groups.drop_first(), close);
        match lookup_open(groups, close) {
            Option::Some(o) => {
                let k = choose|k: int|
                    0 <= k < groups.drop_first().len() && groups.drop_first()[k] == (close, o);
                assert(groups[k + 1] == (close, o));
            },
            Option::None => {},
        }
    }
}

/// The opening position recorded for the first group closed at `close`.
pub open spec fn lookup_open(groups: Seq<(usize, usize)>, close: usize) -> Option<usize>
    decreases groups.len(),
{
    if groups.len() == 0 {
        Option::None
    } else if groups[0].0 == close {
        Option::Some(groups[0].1)
    } else {
        lookup_open(groups.drop_first(), close)
    }
}

/// The parameter string split on every single space. Splitting the empty
/// string yields one empty token.
pub open spec fn split_sp(s: Seq<char>) -> Seq<Seq<char>>
    decreases s.len(),
{
    if s.len() == 0 {
        seq![Seq::<char>::empty()]
    } else if s[0] == ' ' {
        seq![Seq::<char>::empty()] + split_sp(s.drop_first())
    } else {
        let r = split_sp(s.drop_first());
        seq![seq![s[0]] + r[0]] + r.drop_first()
    }
}

/// Splitting yields at least one token.
pub proof fn lemma_split_len(s: Seq<char>)
    ensures
        split_sp(s).len() >= 1,
    decreases s.len(),
{
    if s.len() > 0 {
        lemma_split_len(s.drop_first());
    }
}

/// How one more character extends the split: a space opens a new empty
/// token, anything else grows the last one.
proof fn lemma_split_push(s: Seq<char>, c: char)
    ensures
        c == ' ' ==> split_sp(s.push(c)) == split_sp(s) + seq![Seq::<char>::empty()],
        c != ' ' ==> split_sp(s.push(c)) == split_sp(s).update(
            split_sp(s).len() - 1,
            split_sp(s).last().push(c),
        ),
    decreases s.len(),
{
    lemma_split_len(s);
    if s.len() == 0 {
        assert(s.push(c)[0] == c);
        assert(s.push(c).drop_first() =~= s);
        if c == ' ' {
            assert(split_sp(s.push(c)) =~= split_sp(s) + seq![Seq::<char>::empty()]);
        } else {
            assert(seq![c] + split_sp(Seq::<char>::empty())[0] =~= Seq::<char>::empty().push(c));
            assert(split_sp(s.push(c)) =~= split_sp(s).update(0, split_sp(s).last().push(c)));
        }
    } else {
        lemma_split_push(s.drop_first(), c);
        lemma_split_len(s.drop_first());
        assert(s.push(c)[0] == s[0]);
        assert(s.push(c).drop_first() =~= s.drop_first().push(c));
        if s[0] == ' ' {
            assert(split_sp(s.push(c)) == seq![Seq::<char>::empty()] + split_sp(
                s.drop_first().push(c),
            ));
            assert(split_sp(s) == seq![Seq::<char>::empty()] + split_sp(s.drop_first()));
            if c == ' ' {
                assert(split_sp(s.push(c)) =~= split_sp(s) + seq![Seq::<char>::empty()]);
            } else {
                assert(split_sp(s.push(c)) =~= split_sp(s).update(
                    split_sp(s).len() - 1,
                    split_sp(s).last().push(c),
                ));
            }
        } else {
            let r = split_sp(s.drop_first());
            if c == ' ' {
                assert(split_sp(s.drop_first().push(c)) == r + seq![Seq::<char>::empty()]);
                assert((r + seq![Seq::<char>::empty()])[0] == r[0]);
                assert((r + seq![Seq::<char>::empty()]).drop_first() =~= r.drop_first() + seq![
                    Seq::<char>::empty(),
                ]);
                assert(split_sp(s.push(c)) =~= split_sp(s) + seq![Seq::<char>::empty()]);
            } else {
                let r2 = split_sp(s.drop_first().push(c));
                assert(r2 == r.update(r.len() - 1, r.last().push(c)));
                if r.len() == 1 {
                    assert(r2[0] == r[0].push(c));
                    assert(split_sp(s.push(c)) =~= split_sp(s).update(
                        split_sp(s).len() - 1,
                        split_sp(s).last().push(c),
                    ));
                } else {
                    assert(r2[0] == r[0]);
                    assert(r2.drop_first() =~= r.drop_first().update(
                        r.drop_first().len() - 1,
                        r.drop_first().last().push(c),
                    ));
                    assert(split_sp(s.push(c)) =~= split_sp(s).update(
                        split_sp(s).len() - 1,
                        split_sp(s).last().push(c),
                    ));
                }
            }
        }
    }
}

/// Tokens joined back with single spaces.
pub open spec fn join_sp(ts: Seq<Seq<char>>) -> Seq<char>
    decreases ts.len(),
{
    if ts.len() == 0 {
        Seq::empty()
    } else if ts.len() == 1 {
        ts[0]
    } else {
        ts[0] + seq![' '] + join_sp(ts.drop_first())
    }
}

/// The views of a vector of strings.
pub open spec fn str_views(ts: Seq<String>) -> Seq<Seq<char>> {
    ts.map(|j: int, t: String| t@)
}

/// Cells in `[lo, hi]` blanked out.
pub open spec fn blank_range(cells: Seq<Seq<char>>, lo: usize, hi: usize) -> Seq<Seq<char>> {
    Seq::new(
        cells.len(),
        |k: int|
            if lo <= k <= hi {
                Seq::<char>::empty()
            } else {
                cells[k]
            },
    )
}

/// Hats from index `j` on, applied in closing order: a present, non-empty
/// token replaces the hat's cell with its encoding; a missing or empty
/// one blanks the hat's whole group.
pub open spec fn apply_hats(
    cells: Seq<Seq<char>>,
    hats: Seq<(usize, usize)>,
    groups: Seq<(usize, usize)>,
    toks: Seq<Seq<char>>,
    j: int,
) -> Seq<Seq<char>>
    decreases hats.len() - j,
{
    if j < 0 || j >= hats.len() {
        cells
    } else {
        let cells2 = if j < toks.len() && toks[j].len() > 0 {
            cells.update(hats[j].0 as int, url_encoded(toks[j]))
        } else {
            match lookup_open(groups, hats[j].1) {
                Option::Some(open) => blank_range(cells, open, hats[j].1),
                Option::None => cells,
            }
        };
        apply_hats(cells2, hats, groups, toks, j + 1)
    }
}

/// Brace cells of every matched group, from index `k` on, blanked out.
pub open spec fn elide_groups(
    cells: Seq<Seq<char>>,
    groups: Seq<(usize, usize)>,
    k: int,
) -> Seq<Seq<char>>
    decreases groups.len() - k,
{
    if k < 0 || k >= groups.len() {
        cells
    } else {
        elide_groups(
            cells.update(groups[k].0 as int, Seq::<char>::empty()).update(
                groups[k].1 as int,
                Seq::<char>::empty(),
            ),
            groups,
            k + 1,
        )
    }
}

/// All cells joined into the final text.
pub open spec fn concat_cells(cells: Seq<Seq<char>>) -> Seq<char>
    decreases cells.len(),
{
    if cells.len() == 0 {
        Seq::empty()
    } else {
        concat_cells(cells.drop_last()) + cells.last()
    }
}

/// The whole rendering: scan the template, split the parameters, fill or
/// blank each hat's cell in closing order, append what is left of the
/// parameters (encoded, behind one encoded space), drop the braces, and
/// join the cells.
pub open spec fn render_spec(t: Seq<char>, params: Option<Seq<char>>) -> Seq<char> {
    let sc = scan(t, t.len() as int);
    let toks = split_sp(
        match params {
            Option::Some(p) => p,
            Option::None => Seq::empty(),
        },
    );
    let cells0 = Seq::new(t.len(), |k: int| seq![t[k]]);
    let cells1 = apply_hats(cells0, sc.hats, sc.groups, toks, 0);
    let rest = join_sp(toks.skip(sc.hats.len() as int));
    let cells2 = if toks.len() > sc.hats.len() && rest.len() > 0 {
        cells1.push(url_encoded(seq![' '] + rest))
    } else {
        cells1
    };
    concat_cells(elide_groups(cells2, sc.groups, 0))
}

/// A template with no brace and no hat.
pub open spec fn plain_template(t: Seq<char>) -> bool {
    forall|i: int| 0 <= i < t.len() ==> t[i] != '{' && t[i] != '}' && t[i] != '^'
}

/// A plain template leaves the scan empty.
proof fn lemma_scan_plain(t: Seq<char>, n: int)
    requires
        n <= t.len(),
        plain_template(t),
    ensures
        scan(t, n).stack =~= Seq::<(bool, usize)>::empty(),
        scan(t, n).hats =~= Seq::<(usize, usize)>::empty(),
        scan(t, n).groups =~= Seq::<(usize, usize)>::empty(),
    decreases n,
{
    if n > 0 {
        lemma_scan_plain(t, n - 1);
    }
}

/// Joining one single-character cell per character gives the text back.
proof fn lemma_concat_singletons(t: Seq<char>)
    ensures
        concat_cells(Seq::new(t.len(), |k: int| seq![t[k]])) == t,
    decreases t.len(),
{
    let cells = Seq::new(t.len(), |k: int| seq![t[k]]);
    if t.len() == 0 {
        assert(concat_cells(cells) =~= t);
    } else {
        lemma_concat_singletons(t.drop_last());
        assert(cells.drop_last() =~= Seq::new(t.drop_last().len(), |k: int| seq![t.drop_last()[k]]));
        assert(concat_cells(cells) =~= t);
    }
}

/// A template with no braces and no hats is returned unchanged when no
/// parameters are supplied.
pub proof fn lemma_plain_template_unchanged(t: Seq<char>)
    requires
        plain_template(t),
    ensures
        render_spec(t, Option::None) == t,
{
    lemma_scan_plain(t, t.len() as int);
    let sc = scan(t, t.len() as int);
    let toks = split_sp(Seq::<char>::empty());
    assert(toks =~= seq![Seq::<char>::empty()]);
    let cells0 = Seq::new(t.len(), |k: int| seq![t[k]]);
    assert(apply_hats(cells0, sc.hats, sc.groups, toks, 0) == cells0);
    assert(toks.skip(0) =~= toks);
    assert(join_sp(toks.skip(sc.hats.len() as int)).len() == 0);
    assert(elide_groups(cells0, sc.groups, 0) == cells0);
    lemma_concat_singletons(t);
}

/// The alias part of a request path: everything before the first space,
/// or the whole path when it has none.
pub open spec fn path_alias(path: Seq<char>) -> Seq<char> {
    if contains_char(path, ' ') {
        path.take(first_index_of(path, ' '))
    } else {
        path
    }
}

/// The parameter part of a request path: everything after the first
/// space, absent when the path has none.
pub open spec fn path_params(path: Seq<char>) -> Option<Seq<char>> {
    if contains_char(path, ' ') {
        Option::Some(path.skip(first_index_of(path, ' ') + 1))
    } else {
        Option::None
    }
}

/// The whole read path of one request: the request's first token names
/// the alias, the rest are rendering parameters. A known alias yields its
/// template rendered against those parameters; an unknown one yields
/// nothing.
pub fn resolve_redirect(table: &LinkTable, path: &str) -> (r: Option<String>)
    requires
        table.wf(),
    ensures
        match r {
            Option::Some(loc) => table@.contains_key(path_alias(path@)) && loc@ == render_spec(
                table@[path_alias(path@)],
                path_params(path@),
            ),
            Option::None => !table@.contains_key(path_alias(path@)),
        },
{
    let n = path.unicode_len();
    let mut i: usize = 0;
    while i < n && path.get_char(i) != ' '
        invariant
            n == path@.len(),
            i <= n,
            forall|j: int| 0 <= j < i ==> path@[j] != ' ',
        decreases n - i,
    {
        i = i + 1;
    }
    let alias = path.substring_char(0, i);
    let params: Option<&str> = if i < n {
        proof {
            lemma_first_index_of(path@, ' ', i as int);
        }
        Option::Some(path.substring_char(i + 1, n))
    } else {
        proof {
            assert(!contains_char(path@, ' ')) by {
                if contains_char(path@, ' ') {
                    let w = choose|w: int| 0 <= w < path@.len() && path@[w] == ' ';
                    assert(path@[w] != ' ');
                }
            }
        }
        Option::None
    };
    proof {
        assert(alias@ =~= path_alias(path@));
        match params {
            Option::Some(p) => {
                assert(path_params(path@) == Option::Some(p@));
            },
            Option::None => {
                assert(path_params(path@) is None);
            },
        }
    }
    match table.get(alias) {
        Option::Some(link) => Option::Some(render_url_template(link.url.as_str(), params)),
        Option::None => Option::None,
    }
}

/// Splits on every single space; the empty string gives one empty token.
#[verifier::loop_isolation(false)]
fn split_spaces(s: &str) -> (r: Vec<String>)
    ensures
        str_views(r@) == split_sp(s@),
{
    let n = s.unicode_len();
    let mut r: Vec<String> = Vec::new();
    let mut cur = String::new();
    let mut i: usize = 0;
    while i < n
        invariant
            i <= n,
            str_views(r@).push(cur@) == split_sp(s@.take(i as int)),
        decreases n - i,
    {
        let c = s.get_char(i);
        let ghost prefix = s@.take(i as int);
        proof {
            lemma_split_push(prefix, c);
            assert(s@.take(i + 1) =~= prefix.push(c));
        }
        if c == ' ' {
            let ghost old_r = r@;
            let ghost old_cur = cur@;
            r.push(cur);
            cur = String::new();
            proof {
                assert(str_views(r@) =~= str_views(old_r).push(old_cur));
                assert(str_views(r@).push(cur@) =~= split_sp(prefix) + seq![
                    Seq::<char>::empty(),
                ]);
            }
        } else {
            let ghost old_cur = cur@;
            push_char(&mut cur, c);
            proof {
                let before = str_views(r@).push(old_cur);
                assert(before.update(before.len() - 1, before.last().push(c)) =~= str_views(
                    r@,
                ).push(cur@));
            }
        }
        i = i + 1;
    }
    proof {
        assert(s@.take(n as int) =~= s@);
    }
    r.push(cur);
    proof {
        assert(str_views(r@) =~= split_sp(s@));
    }
    r
}

/// Joins the tokens from index `k` on with single spaces.
fn join_from(ts: &Vec<String>, k: usize) -> (r: String)
    requires
        k <= ts@.len(),
    ensures
        r@ == join_sp(str_views(ts@).skip(k as int)),
    decreases ts@.len() - k,
{
    if k >= ts.len() {
        proof {
            assert(str_views(ts@).skip(k as int) =~= Seq::<Seq<char>>::empty());
        }
        String::new()
    } else if k + 1 == ts.len() {
        proof {
            assert(str_views(ts@).skip(k as int) =~= seq![ts@[k as int]@]);
        }
        ts[k].clone()
    } else {
        let mut r = ts[k].clone();
        push_char(&mut r, ' ');
        let rest = join_from(ts, k + 1);
        r.append(rest.as_str());
        proof {
            let sk = str_views(ts@).skip(k as int);
            assert(sk[0] == ts@[k as int]@);
            assert(sk.drop_first() =~= str_views(ts@).skip(k as int + 1));
            assert(r@ =~= join_sp(sk));
        }
        r
    }
}

/// The opening position recorded for this closing brace, if any.
#[verifier::loop_isolation(false)]
fn find_open(groups: &Vec<(usize, usize)>, close: usize) -> (r: Option<usize>)
    ensures
        r == lookup_open(groups@, close),
{
    let n = groups.len();
    let mut j: usize = 0;
    proof {
        assert(groups@.skip(0) =~= groups@);
    }
    while j < n
        invariant
            j <= n,
            lookup_open(groups@, close) == lookup_open(groups@.skip(j as int), close),
        decreases n - j,
    {
        proof {
            assert(groups@.skip(j as int)[0] == groups@[j as int]);
            assert(groups@.skip(j as int).drop_first() =~= groups@.skip(j as int + 1));
        }
        if groups[j].0 == close {
            return Option::Some(groups[j].1);
        }
        j = j + 1;
    }
    proof {
        assert(groups@.skip(n as int) =~= Seq::<(usize, usize)>::empty());
    }
    Option::None
}

/// The parameters as the specification sees them.
pub open spec fn params_view(params: Option<&str>) -> Option<Seq<char>> {
    match params {
        Option::Some(p) => Option::Some(p@),
        Option::None => Option::None,
    }
}

/// Renders a URL template against a raw parameter string (already
/// percent-decoded, space-separated). The result is exactly what the
/// rendering specification prescribes for these inputs.
#[verifier::loop_isolation(false)]
#[verifier::rlimit(60)]
pub fn render_url_template(template: &str, params: Option<&str>) -> (r: String)
    ensures
        r@ == render_spec(template@, params_view(params)),
{
    let ghost t = template@;
    let tlen = template.unicode_len();

    let mut stack: Vec<(bool, usize)> = Vec::new();
    let mut hats: Vec<(usize, usize)> = Vec::new();
    let mut groups: Vec<(usize, usize)> = Vec::new();
    let mut cells: Vec<String> = Vec::new();

    let mut i: usize = 0;
    while i < tlen
        invariant
            i <= tlen,
            stack@ == scan(t, i as int).stack,
            hats@ == scan(t, i as int).hats,
            groups@ == scan(t, i as int).groups,
            cells@.len() == i,
            str_views(cells@) == Seq::new(i as nat, |k: int| seq![t[k]]),
        decreases tlen - i,
    {
        let ghost st = scan(t, i as int);
        let c = template.get_char(i);
        if c == '{' {
            stack.push((false, i));
        } else if c == '}' {
            let ghost orig_stack = stack@;
            let mut temp: Vec<usize> = Vec::new();
            let mut open_found: Option<usize> = Option::None;
            while open_found.is_none() && stack.len() > 0
                invariant
                    match open_found {
                        Option::None => pop_to_open(orig_stack) == (
                            temp@ + pop_to_open(stack@).0,
                            pop_to_open(stack@).1,
                            pop_to_open(stack@).2,
                        ),
                        Option::Some(o) => pop_to_open(orig_stack) == (
                            temp@,
                            Option::Some(o),
                            stack@,
                        ),
                    },
                decreases stack@.len(),
            {
                let ghost stack_before = stack@;
                let top = match stack.pop() {
                    Option::Some(p) => p,
                    Option::None => vstd::pervasive::unreached(),
                };
                proof {
                    assert(stack_before.drop_last() =~= stack@);
                }
                if top.0 {
                    temp.push(top.1);
                    proof {
                        assert(pop_to_open(stack_before).0 =~= seq![top.1] + pop_to_open(
                            stack@,
                        ).0);
                        assert(temp@.drop_last() + (seq![top.1] + pop_to_open(stack@).0) =~= temp@
                            + pop_to_open(stack@).0);
                    }
                } else {
                    open_found = Option::Some(top.1);
                    proof {
                        assert(temp@ + Seq::<usize>::empty() =~= temp@);
                    }
                }
            }
            proof {
                match open_found {
                    Option::None => {
                        assert(stack@.len() == 0);
                        assert(temp@ + pop_to_open(stack@).0 =~= temp@);
                    },
                    Option::Some(o) => {},
                }
                assert(pop_to_open(orig_stack) == (temp@, open_found, stack@));
            }
            let ghost before_hats = hats@;
            let mut k = temp.len();
            proof {
                assert(temp@.skip(k as int) =~= Seq::<usize>::empty());
                assert(hat_pairs(Seq::<usize>::empty(), i) =~= Seq::<(usize, usize)>::empty());
                assert(hats@ =~= before_hats + hat_pairs(temp@.skip(k as int), i));
            }
            while k > 0
                invariant
                    k <= temp@.len(),
                    hats@ == before_hats + hat_pairs(temp@.skip(k as int), i),
                decreases k,
            {
                k = k - 1;
                hats.push((temp[k], i));
                proof {
                    assert(hat_pairs(temp@.skip(k as int), i) =~= hat_pairs(
                        temp@.skip(k as int + 1),
                        i,
                    ).push((temp@[k as int], i)));
                    assert(hats@ =~= before_hats + hat_pairs(temp@.skip(k as int), i));
                }
            }
            proof {
                assert(temp@.skip(0) =~= temp@);
            }
            match open_found {
                Option::Some(open) => {
                    groups.push((i, open));
                },
                Option::None => {},
            }
        } else if c == '^' {
            if stack.len() > 0 {
                stack.push((true, i));
            }
        }
        let cell = template.substring_char(i, i + 1).to_owned();
        proof {
            assert(cell@ =~= seq![t[i as int]]);
        }
        let ghost prev_cells = cells@;
        cells.push(cell);
        proof {
            assert(scan(t, i + 1) == scan_step(st, t[i as int], i));
            assert(str_views(cells@) =~= str_views(prev_cells).push(cell@));
            assert(str_views(cells@) =~= Seq::new((i + 1) as nat, |k: int| seq![t[k]]));
        }
        i = i + 1;
    }
    let ghost sc = scan(t, tlen as int);
    proof {
        lemma_scan_bounded(t, tlen as int);
    }

    let p_str = match params {
        Option::Some(p) => p,
        Option::None => "",
    };
    proof {
        reveal_strlit("");
        assert(""@ =~= Seq::<char>::empty());
    }
    let tokens = split_spaces(p_str);
    let ghost toks = str_views(tokens@);
    let ghost cells0 = Seq::new(t.len(), |k: int| seq![t[k]]);

    let hats_len = hats.len();
    let mut j: usize = 0;
    while j < hats_len
        invariant
            j <= hats_len,
            cells@.len() == tlen,
            apply_hats(str_views(cells@), sc.hats, sc.groups, toks, j as int) == apply_hats(
                cells0,
                sc.hats,
                sc.groups,
                toks,
                0,
            ),
        decreases hats_len - j,
    {
        let ghost before = str_views(cells@);
        let hp = hats[j];
        let h = hp.0;
        let close = hp.1;
        let mut filled = false;
        if j < tokens.len() {
            if tokens[j].unicode_len() > 0 {
                let enc = encode_component(tokens[j].as_str());
                cells[h] = enc;
                filled = true;
                proof {
                    assert(str_views(cells@) =~= before.update(h as int, url_encoded(toks[j as int])));
                }
            }
        }
        if !filled {
            match find_open(&groups, close) {
                Option::Some(open) => {
                    proof {
                        lemma_lookup_open_is_member(sc.groups, close);
                    }
                    let mut idx = open;
                    while idx <= close
                        invariant
                            open <= idx <= close + 1,
                            close < tlen,
                            cells@.len() == tlen,
                            str_views(cells@) == Seq::new(
                                before.len(),
                                |k: int|
                                    if open <= k < idx {
                                        Seq::<char>::empty()
                                    } else {
                                        before[k]
                                    },
                            ),
                        decreases close + 1 - idx,
                    {
                        let ghost prev_cells = cells@;
                        cells[idx] = String::new();
                        proof {
                            assert(str_views(cells@) =~= str_views(prev_cells).update(
                                idx as int,
                                Seq::<char>::empty(),
                            ));
                            assert(str_views(cells@) =~= Seq::new(
                                before.len(),
                                |k: int|
                                    if open <= k < idx + 1 {
                                        Seq::<char>::empty()
                                    } else {
                                        before[k]
                                    },
                            ));
                        }
                        idx = idx + 1;
                    }
                    proof {
                        assert(str_views(cells@) =~= blank_range(before, open, close));
                    }
                },
                Option::None => {},
            }
        }
        proof {
            assert(apply_hats(str_views(cells@), sc.hats, sc.groups, toks, j + 1) == apply_hats(
                before,
                sc.hats,
                sc.groups,
                toks,
                j as int,
            ));
        }
        j = j + 1;
    }
    proof {
        assert(str_views(cells@) == apply_hats(cells0, sc.hats, sc.groups, toks, 0));
    }

    let ghost cells1 = str_views(cells@);
    if tokens.len() > hats_len {
        let rest = join_from(&tokens, hats_len);
        if rest.unicode_len() > 0 {
            let mut sp = String::new();
            push_char(&mut sp, ' ');
            sp.append(rest.as_str());
            proof {
                assert(sp@ =~= seq![' '] + rest@);
            }
            let enc = encode_component(sp.as_str());
            cells.push(enc);
            proof {
                assert(str_views(cells@) =~= cells1.push(
                    url_encoded(seq![' '] + join_sp(toks.skip(sc.hats.len() as int))),
                ));
            }
        }
    }
    let ghost cells2 = str_views(cells@);

    let groups_len = groups.len();
    let mut g: usize = 0;
    while g < groups_len
        invariant
            g <= groups_len,
            cells@.len() == cells2.len(),
            elide_groups(str_views(cells@), sc.groups, g as int) == elide_groups(
                cells2,
                sc.groups,
                0,
            ),
        decreases groups_len - g,
    {
        let ghost before = str_views(cells@);
        let gp = groups[g];
        cells[gp.0] = String::new();
        cells[gp.1] = String::new();
        proof {
            assert(str_views(cells@) =~= before.update(gp.0 as int, Seq::<char>::empty()).update(
                gp.1 as int,
                Seq::<char>::empty(),
            ));
        }
        g = g + 1;
    }
    proof {
        assert(str_views(cells@) == elide_groups(cells2, sc.groups, 0));
    }

    let ghost cells3 = str_views(cells@);
    let mut out = String::new();
    let m = cells.len();
    let mut q: usize = 0;
    while q < m
        invariant
            q <= m,
            out@ == concat_cells(cells3.take(q as int)),
            str_views(cells@) == cells3,
            cells@.len() == m,
        decreases m - q,
    {
        out.append(cells[q].as_str());
        proof {
            assert(cells3.take(q + 1).drop_last() =~= cells3.take(q as int));
            assert(cells3.take(q + 1).last() == cells3[q as int]);
        }
        q = q + 1;
    }
    proof {
        assert(cells3.take(m as int) =~= cells3);
    }
    out
}

} // verus!
