//! Replies of the control socket.
use vstd::prelude::*;
use vstd::string::*;
use crate::order::texts;
use crate::text::{contains_in, eq_lit, find_in, has_prefix, i32_text, join_strings, join_with, lemma_find_char, lemma_i32_text_parses, lemma_i32_text_plain, lemma_join_ends, lemma_join_has_sep, lemma_join_lacks, lemma_join_prefix, lemma_lines_split, lemma_split_join, lemma_split_once_concat, lines_of, parse_i32, parse_i32_spec, push_i32, split_on, split_once, strip_cr, sub_string, to_chars};

verus! {

broadcast use vstd::string::group_string_axioms;

/// One monitor as the daemon reports it.
#[derive(Debug, PartialEq, Eq)]
pub struct MonitorInfo {
    pub name: String,
    pub x: i32,
    pub y: i32,
    pub w: i32,
    pub h: i32,
    /// Sorted names of every monitor sharing this monitor's zone, itself
    /// included; empty when it has no wallpaper. One name: a solo zone.
    pub group: Vec<String>,
}

/// A reply to a command.
#[derive(Debug, PartialEq, Eq)]
pub enum Response {
    Okay,
    Path(String),
    MonitorList(Vec<MonitorInfo>),
    Error(String),
}

/// A monitor report as plain values.
pub struct InfoView {
    pub name: Seq<char>,
    pub x: i32,
    pub y: i32,
    pub w: i32,
    pub h: i32,
    pub group: Seq<Seq<char>>,
}

/// A reply as plain values.
pub enum ResponseView {
    Okay,
    Path(Seq<char>),
    MonitorList(Seq<InfoView>),
    Error(Seq<char>),
}

impl View for MonitorInfo {
    type V = InfoView;

    open spec fn view(&self) -> InfoView {
        InfoView { name: self.name@, x: self.x, y: self.y, w: self.w, h: self.h, group: texts(self.group@) }
    }
}

pub open spec fn info_views(v: Seq<MonitorInfo>) -> Seq<InfoView> {
    v.map_values(|i: MonitorInfo| i@)
}

impl View for Response {
    type V = ResponseView;

    open spec fn view(&self) -> ResponseView {
        match self {
            Response::Okay => ResponseView::Okay,
            Response::Path(p) => ResponseView::Path(p@),
            Response::MonitorList(infos) => ResponseView::MonitorList(info_views(infos@)),
            Response::Error(m) => ResponseView::Error(m@),
        }
    }
}

/// The group field: the names comma-separated, or `-` for none.
pub open spec fn group_text(g: Seq<Seq<char>>) -> Seq<char> {
    if g.len() == 0 {
        seq!['-']
    } else {
        join_with(g, seq![','])
    }
}

/// `x,y,w,h`
pub open spec fn rect_text(i: InfoView) -> Seq<char> {
    join_with(seq![i32_text(i.x as int), i32_text(i.y as int), i32_text(i.w as int), i32_text(i.h as int)], seq![','])
}

/// `name x,y,w,h group`
pub open spec fn info_text(i: InfoView) -> Seq<char> {
    i.name + seq![' '] + rect_text(i) + seq![' '] + group_text(i.group)
}

pub open spec fn info_texts(infos: Seq<InfoView>) -> Seq<Seq<char>> {
    infos.map_values(|i: InfoView| info_text(i))
}

/// The text a reply is sent as.
pub open spec fn response_text(r: ResponseView) -> Seq<char> {
    match r {
        ResponseView::Okay => "ok"@,
        ResponseView::Path(p) => p,
        ResponseView::MonitorList(infos) => join_with(info_texts(infos), seq!['\n']),
        ResponseView::Error(m) => "error: "@ + m,
    }
}

/// Four pieces joined with `sep`, written out.
proof fn lemma_join4(a: Seq<char>, b: Seq<char>, c: Seq<char>, d: Seq<char>, sep: Seq<char>)
    ensures
        join_with(seq![a, b, c, d], sep) == a + sep + b + sep + c + sep + d,
{
    let s4 = seq![a, b, c, d];
    assert(s4.drop_last() =~= seq![a, b, c]);
    assert(seq![a, b, c].drop_last() =~= seq![a, b]);
    assert(seq![a, b].drop_last() =~= seq![a]);
    assert(join_with(seq![a], sep) == a);
    assert(join_with(seq![a, b], sep) == a + sep + b);
    assert(join_with(seq![a, b, c], sep) == a + sep + b + sep + c);
}

/// One monitor report as its wire line.
fn info_line(m: &MonitorInfo) -> (r: String)
    ensures
        r@ == info_text(m@),
{
    let mut out = String::new();
    out.append(m.name.as_str());
    out.append(" ");
    let ghost after_name = out@;
    push_i32(&mut out, m.x);
    out.append(",");
    push_i32(&mut out, m.y);
    out.append(",");
    push_i32(&mut out, m.w);
    out.append(",");
    push_i32(&mut out, m.h);
    let ghost after_rect = out@;
    out.append(" ");
    let ghost after_space = out@;
    if m.group.len() == 0 {
        out.append("-");
        proof {
            reveal_strlit("-");
            assert(texts(m.group@).len() == 0);
            assert(out@ =~= after_space + group_text(m@.group));
        }
    } else {
        let g = join_strings(m.group.as_slice(), ",");
        proof {
            reveal_strlit(",");
            assert(","@ =~= seq![',']);
            assert(texts(m.group@).len() > 0);
            assert(g@ == group_text(m@.group));
        }
        out.append(g.as_str());
    }
    proof {
        reveal_strlit(" ");
        reveal_strlit(",");
        lemma_join4(
            i32_text(m.x as int),
            i32_text(m.y as int),
            i32_text(m.w as int),
            i32_text(m.h as int),
            seq![','],
        );
        assert(after_rect =~= m.name@ + seq![' '] + rect_text(m@));
        assert(out@ =~= info_text(m@));
    }
    out
}

impl Response {
    /// The text this reply is sent as.
    pub fn to_wire(&self) -> (r: String)
        ensures
            r@ == response_text(self@),
    {
        match self {
            Response::Okay => {
                let r = "ok".to_owned();
                r
            },
            Response::Path(p) => p.clone(),
            Response::MonitorList(infos) => {
                let mut lines: Vec<String> = Vec::new();
                let mut i: usize = 0;
                while i < infos.len()
                    invariant
                        i <= infos@.len(),
                        crate::order::texts(lines@) == info_texts(info_views(infos@)).take(i as int),
                    decreases infos@.len() - i,
                {
                    let ghost before = lines@;
                    lines.push(info_line(&infos[i]));
                    proof {
                        assert(crate::order::texts(lines@) =~= crate::order::texts(before).push(
                            info_text(infos@[i as int]@),
                        ));
                        assert(info_texts(info_views(infos@)).take(i + 1int) =~= info_texts(
                            info_views(infos@),
                        ).take(i as int).push(info_text(infos@[i as int]@)));
                    }
                    i = i + 1;
                }
                proof {
                    assert(info_texts(info_views(infos@)).take(i as int) =~= info_texts(
                        info_views(infos@),
                    ));
                }
                let r = join_strings(lines.as_slice(), "\n");
                proof {
                    reveal_strlit("\n");
                    assert("\n"@ =~= seq!['\n']);
                }
                r
            },
            Response::Error(msg) => {
                let mut r = "error: ".to_owned();
                r.append(msg.as_str());
                r
            },
        }
    }
}

/// The group a report line's third field names: none when the field is
/// missing or is the placeholder `-`, else its comma-separated names.
pub open spec fn group_field(g: Option<Seq<char>>) -> Seq<Seq<char>> {
    match g {
        None => Seq::<Seq<char>>::empty(),
        Some(g) => if g == seq!['-'] {
            Seq::<Seq<char>>::empty()
        } else {
            split_on(g, ',')
        },
    }
}

/// What one `name x,y,w,h group` line denotes, if it has that shape; a line
/// that stops after the rectangle reports no group.
pub open spec fn parse_info_spec(l: Seq<char>) -> Option<InfoView> {
    let name = split_once(l, ' ').0;
    match split_once(l, ' ').1 {
        None => None,
        Some(r1) => {
            let rect = split_once(r1, ' ').0;
            let parts = split_on(rect, ',');
            if parts.len() != 4 {
                None
            } else {
                match (parse_i32_spec(parts[0]), parse_i32_spec(parts[1]), parse_i32_spec(parts[2]), parse_i32_spec(parts[3])) {
                    (Some(x), Some(y), Some(w), Some(h)) => Some(InfoView {
                        name,
                        x,
                        y,
                        w,
                        h,
                        group: group_field(split_once(r1, ' ').1),
                    }),
                    _ => None,
                }
            }
        },
    }
}

/// The monitor reports among `lines`, skipping lines of another shape.
pub open spec fn parse_infos(lines: Seq<Seq<char>>) -> Seq<InfoView>
    decreases lines.len(),
{
    if lines.len() == 0 {
        seq![]
    } else {
        match parse_info_spec(lines.last()) {
            Some(i) => parse_infos(lines.drop_last()).push(i),
            None => parse_infos(lines.drop_last()),
        }
    }
}

/// What a reply text denotes: an error after the `error: ` prefix, `ok`,
/// monitor reports (one per line), a single monitor report, or else a path.
pub open spec fn parse_response_spec(t: Seq<char>) -> ResponseView {
    if has_prefix(t, "error: "@) {
        ResponseView::Error(t.skip(7))
    } else if t == "ok"@ {
        ResponseView::Okay
    } else if t.contains('\n') {
        ResponseView::MonitorList(parse_infos(lines_of(t)))
    } else {
        match parse_info_spec(t) {
            Some(i) => ResponseView::MonitorList(seq![i]),
            None => ResponseView::Path(t),
        }
    }
}

/// The pieces of `v[lo..hi]` split on commas, as strings.
fn split_commas(text: &str, v: &[char], lo: usize, hi: usize) -> (r: Vec<String>)
    requires
        v@ == text@,
        lo <= hi <= v@.len(),
    ensures
        texts(r@) == split_on(v@.subrange(lo as int, hi as int), ','),
{
    let ghost whole = v@.subrange(lo as int, hi as int);
    let mut out: Vec<String> = Vec::new();
    let mut start = lo;
    proof {
        assert(v@.subrange(start as int, hi as int) =~= whole);
    }
    loop
        invariant
            lo <= start <= hi <= v@.len(),
            v@ == text@,
            whole == v@.subrange(lo as int, hi as int),
            split_on(whole, ',') == texts(out@) + split_on(v@.subrange(start as int, hi as int), ','),
        decreases hi - start,
    {
        let ghost rest = v@.subrange(start as int, hi as int);
        let k = find_in(v, start, hi, ',');
        proof {
            lemma_find_char(rest, ',');
        }
        let ghost before = out@;
        out.push(sub_string(text, start, k));
        proof {
            assert(texts(out@) =~= texts(before).push(v@.subrange(start as int, k as int)));
        }
        if k == hi {
            proof {
                assert(rest.take(k - start) =~= rest);
                assert(split_on(rest, ',') == seq![rest]);
                assert(split_on(whole, ',') =~= texts(out@));
            }
            return out;
        }
        proof {
            assert(rest.take(k - start) =~= v@.subrange(start as int, k as int));
            assert(rest.skip(k - start + 1) =~= v@.subrange(k + 1int, hi as int));
            assert(split_on(whole, ',') =~= texts(out@) + split_on(v@.subrange(k + 1int, hi as int), ','));
        }
        start = k + 1;
    }
}

/// `x,y,w,h` in `v[lo..hi]`, if exactly four integers.
fn parse_rect(v: &[char], lo: usize, hi: usize) -> (r: Option<(i32, i32, i32, i32)>)
    requires
        lo <= hi <= v@.len(),
    ensures
        ({
            let parts = split_on(v@.subrange(lo as int, hi as int), ',');
            match r {
                Some(q) => parts.len() == 4 && parse_i32_spec(parts[0]) == Some(q.0) && parse_i32_spec(parts[1])
                    == Some(q.1) && parse_i32_spec(parts[2]) == Some(q.2) && parse_i32_spec(parts[3]) == Some(q.3),
                None => !(parts.len() == 4 && parse_i32_spec(parts[0]) is Some && parse_i32_spec(parts[1]) is Some
                    && parse_i32_spec(parts[2]) is Some && parse_i32_spec(parts[3]) is Some),
            }
        }),
{
    let ghost whole = v@.subrange(lo as int, hi as int);
    let mut vals: Vec<i32> = Vec::new();
    let mut ok = true;
    let mut count: usize = 0;
    let mut start = lo;
    let ghost mut done: Seq<Seq<char>> = seq![];
    proof {
        assert(v@.subrange(start as int, hi as int) =~= whole);
    }
    loop
        invariant_except_break
            split_on(whole, ',') == done + split_on(v@.subrange(start as int, hi as int), ','),
        invariant
            lo <= start <= hi <= v@.len(),
            whole == v@.subrange(lo as int, hi as int),
            count == if done.len() < 5 { done.len() } else { 5 },
            ok ==> vals@.len() == done.len() && forall|i: int| 0 <= i < done.len() ==> parse_i32_spec(done[i]) == Some(#[trigger] vals@[i]),
            !ok ==> exists|i: int| 0 <= i < done.len() && #[trigger] parse_i32_spec(done[i]) is None,
        ensures
            split_on(whole, ',') == done,
        decreases hi - start,
    {
        let ghost rest = v@.subrange(start as int, hi as int);
        let k = find_in(v, start, hi, ',');
        proof {
            lemma_find_char(rest, ',');
        }
        let ghost piece = v@.subrange(start as int, k as int);
        let parsed = parse_i32(v, start, k);
        proof {
            if !ok {
                let i = choose|i: int| 0 <= i < done.len() && #[trigger] parse_i32_spec(done[i]) is None;
                assert(done.push(piece)[i] == done[i]);
            }
        }
        match parsed {
            Some(n) => {
                if ok {
                    vals.push(n);
                    proof {
                        assert forall|i: int| 0 <= i < done.len() + 1 implies parse_i32_spec(done.push(piece)[i]) == Some(#[trigger] vals@[i]) by {
                            if i < done.len() {
                                assert(done.push(piece)[i] == done[i]);
                            }
                        }
                    }
                }
            },
            None => {
                proof {
                    assert(parse_i32_spec(done.push(piece)[done.len() as int]) is None);
                }
                ok = false;
            },
        }
        proof {
            done = done.push(piece);
        }
        if count < 5 {
            count = count + 1;
        }
        if k == hi {
            proof {
                assert(piece =~= rest);
                assert(split_on(rest, ',') == seq![rest]);
                assert(split_on(whole, ',') =~= done);
            }
            break ;
        }
        proof {
            assert(rest.take(k - start) =~= piece);
            assert(rest.skip(k - start + 1) =~= v@.subrange(k + 1int, hi as int));
            assert(split_on(whole, ',') =~= done + split_on(v@.subrange(k + 1int, hi as int), ','));
        }
        start = k + 1;
    }
    if !ok || count != 4 {
        proof {
            if !ok && done.len() == 4 {
                let i = choose|i: int| 0 <= i < done.len() && #[trigger] parse_i32_spec(done[i]) is None;
                assert(i == 0 || i == 1 || i == 2 || i == 3);
            }
        }
        return None;
    }
    Some((vals[0], vals[1], vals[2], vals[3]))
}

/// Parses one `name x,y,w,h group` line in `v[lo..hi]`.
fn parse_info_range(text: &str, v: &[char], lo: usize, hi: usize) -> (r: Option<MonitorInfo>)
    requires
        v@ == text@,
        lo <= hi <= v@.len(),
    ensures
        match r {
            Some(i) => parse_info_spec(v@.subrange(lo as int, hi as int)) == Some(i@),
            None => parse_info_spec(v@.subrange(lo as int, hi as int)) is None,
        },
{
    let ghost l = v@.subrange(lo as int, hi as int);
    let k1 = find_in(v, lo, hi, ' ');
    proof {
        lemma_find_char(l, ' ');
    }
    if k1 == hi {
        return None;
    }
    let ghost r1 = v@.subrange(k1 + 1int, hi as int);
    proof {
        assert(l.take(k1 - lo) =~= v@.subrange(lo as int, k1 as int));
        assert(l.skip(k1 - lo + 1) =~= r1);
    }
    let k2 = find_in(v, k1 + 1, hi, ' ');
    proof {
        lemma_find_char(r1, ' ');
        assert(r1.take(k2 - k1 - 1) =~= v@.subrange(k1 + 1int, k2 as int));
        if k2 < hi {
            assert(r1.skip(k2 - k1) =~= v@.subrange(k2 + 1int, hi as int));
        } else {
            assert(r1 =~= v@.subrange(k1 + 1int, k2 as int));
        }
    }
    let rect = parse_rect(v, k1 + 1, k2);
    let (x, y, w, h) = match rect {
        Some(q) => q,
        None => {
            return None;
        },
    };
    let name = sub_string(text, lo, k1);
    let group = if k2 == hi {
        Vec::new()
    } else if eq_lit_dash(v, k2 + 1, hi) {
        Vec::new()
    } else {
        split_commas(text, v, k2 + 1, hi)
    };
    proof {
        if k2 == hi || v@.subrange(k2 + 1int, hi as int) == seq!['-'] {
            assert(texts(group@) =~= Seq::<Seq<char>>::empty());
        }
    }
    Some(MonitorInfo { name, x, y, w, h, group })
}

/// `v[lo..hi]` is the single character `-`.
fn eq_lit_dash(v: &[char], lo: usize, hi: usize) -> (r: bool)
    requires
        lo <= hi <= v@.len(),
    ensures
        r == (v@.subrange(lo as int, hi as int) == seq!['-']),
{
    let r = eq_lit(v, lo, hi, "-");
    proof {
        reveal_strlit("-");
        assert("-"@ =~= seq!['-']);
    }
    r
}

/// Parses one monitor report line, if it has the `name x,y,w,h group` shape.
pub fn parse_monitor_info_line(line: &str) -> (r: Option<MonitorInfo>)
    ensures
        match r {
            Some(i) => parse_info_spec(line@) == Some(i@),
            None => parse_info_spec(line@) is None,
        },
{
    let v = to_chars(line);
    proof {
        assert(v@.subrange(0, v@.len() as int) =~= line@);
    }
    parse_info_range(line, v.as_slice(), 0, v.len())
}

/// Parses a reply text.
pub fn parse_response(text: &str) -> (r: Response)
    ensures
        r@ == parse_response_spec(text@),
{
    let v = to_chars(text);
    let n = v.len();
    proof {
        reveal_strlit("error: ");
        assert(v@.subrange(0, n as int) =~= text@);
    }
    if n >= 7 && eq_lit(v.as_slice(), 0, 7, "error: ") {
        proof {
            assert(text@.take(7) =~= v@.subrange(0, 7));
            assert(text@.skip(7) =~= v@.subrange(7, n as int));
        }
        return Response::Error(sub_string(text, 7, n));
    }
    proof {
        if has_prefix(text@, "error: "@) {
            assert(text@.take(7) =~= v@.subrange(0, 7));
        }
    }
    if eq_lit(v.as_slice(), 0, n, "ok") {
        return Response::Okay;
    }
    if contains_in(v.as_slice(), 0, n, '\n') {
        let mut infos: Vec<MonitorInfo> = Vec::new();
        let ghost mut done: Seq<Seq<char>> = seq![];
        let mut start: usize = 0;
        loop
            invariant_except_break
                lines_of(text@) == done + lines_of(v@.subrange(start as int, n as int)),
            invariant
                start <= n == v@.len(),
                v@ == text@,
                info_views(infos@) == parse_infos(done),
            ensures
                lines_of(text@) == done,
            decreases n - start,
        {
            let ghost rest = v@.subrange(start as int, n as int);
            if start == n {
                proof {
                    assert(lines_of(rest) =~= Seq::<Seq<char>>::empty());
                    assert(done + lines_of(rest) =~= done);
                }
                break ;
            }
            let k = find_in(v.as_slice(), start, n, '\n');
            proof {
                lemma_find_char(rest, '\n');
            }
            let end = if k < n && k > start && v[k - 1] == '\r' {
                k - 1
            } else {
                k
            };
            let ghost line = v@.subrange(start as int, end as int);
            proof {
                if k < n {
                    assert(rest.take(k - start) =~= v@.subrange(start as int, k as int));
                    assert(strip_cr(v@.subrange(start as int, k as int)) =~= line);
                    assert(rest.skip(k - start + 1) =~= v@.subrange(k + 1int, n as int));
                    assert(lines_of(rest) =~= seq![line] + lines_of(v@.subrange(k + 1int, n as int)));
                } else {
                    assert(line =~= rest);
                    assert(lines_of(rest) == seq![line]);
                }
                assert(done.push(line).drop_last() =~= done);
            }
            let ghost before = infos@;
            match parse_info_range(text, v.as_slice(), start, end) {
                Some(i) => {
                    infos.push(i);
                    proof {
                        assert(info_views(infos@) =~= info_views(before).push(i@));
                    }
                },
                None => {},
            }
            proof {
                done = done.push(line);
            }
            if k == n {
                proof {
                    assert(lines_of(text@) =~= done);
                }
                break ;
            }
            proof {
                assert(lines_of(text@) =~= done + lines_of(v@.subrange(k + 1int, n as int)));
            }
            start = k + 1;
        }
        proof {
            assert(lines_of(text@) == done);
        }
        return Response::MonitorList(infos);
    }
    match parse_info_range(text, v.as_slice(), 0, n) {
        Some(i) => {
            let mut infos: Vec<MonitorInfo> = Vec::new();
            infos.push(i);
            proof {
                assert(info_views(infos@) =~= seq![i@]);
            }
            Response::MonitorList(infos)
        },
        None => Response::Path(text.to_owned()),
    }
}

/// A monitor report whose wire line reads back as itself: its name holds no
/// space or line break, its group names hold no comma, line break or
/// carriage return, and the group is not the one name `-` (the placeholder
/// that stands for no group).
pub open spec fn info_wire_ok(i: InfoView) -> bool {
    &&& !i.name.contains(' ')
    &&& !i.name.contains('\n')
    &&& forall|k: int|
        0 <= k < i.group.len() ==> !(#[trigger] i.group[k]).contains(',') && !i.group[k].contains('\n')
            && !i.group[k].contains('\r')
    &&& i.group != seq![seq!['-']]
}

/// A reply whose text reads back as itself: `ok` and errors always; a path
/// that does not look like another reply; a non-empty list of reports that
/// each read back, the first not named `error:`.
pub open spec fn response_wire_ok(r: ResponseView) -> bool {
    match r {
        ResponseView::Okay => true,
        ResponseView::Error(_) => true,
        ResponseView::Path(p) => !has_prefix(p, "error: "@) && p != "ok"@ && !p.contains('\n') && parse_info_spec(p) is None,
        ResponseView::MonitorList(infos) => infos.len() > 0 && infos[0].name != "error:"@ && forall|k: int|
            0 <= k < infos.len() ==> info_wire_ok(#[trigger] infos[k]),
    }
}

proof fn lemma_concat_lacks(a: Seq<char>, b: Seq<char>, x: char)
    requires
        !a.contains(x),
        !b.contains(x),
    ensures
        !(a + b).contains(x),
{
    if (a + b).contains(x) {
        let i = choose|i: int| 0 <= i < (a + b).len() && (a + b)[i] == x;
        if i < a.len() {
            assert(a[i] == x);
        } else {
            assert(b[i - a.len()] == x);
        }
    }
}

/// A text that starts with a space-free name other than `error:` and then a
/// space does not start with `error: `.
proof fn lemma_no_error_prefix(name: Seq<char>, rest: Seq<char>)
    requires
        !name.contains(' '),
        name != "error:"@,
    ensures
        !has_prefix(name + seq![' '] + rest, "error: "@),
{
    reveal_strlit("error: ");
    reveal_strlit("error:");
    let t = name + seq![' '] + rest;
    let e = "error: "@;
    if has_prefix(t, e) {
        assert(t.take(7) == e);
        if name.len() < 6 {
            assert(t[name.len() as int] == ' ');
            assert(t.take(7)[name.len() as int] == e[name.len() as int]);
        } else if name.len() == 6 {
            assert(name =~= "error:"@) by {
                assert forall|i: int| 0 <= i < 6 implies name[i] == "error:"@[i] by {
                    assert(t[i] == name[i]);
                    assert(t.take(7)[i] == e[i]);
                }
            }
        } else {
            assert(t[6] == name[6]);
            assert(t.take(7)[6] == e[6]);
            assert(name.contains(' '));
        }
    }
}

/// A report line that meets `info_wire_ok` parses back to the report, and
/// holds no line break, and does not end in a carriage return.
proof fn lemma_info_text(i: InfoView)
    requires
        info_wire_ok(i),
    ensures
        parse_info_spec(info_text(i)) == Some(i),
        info_text(i).len() > 0,
        !info_text(i).contains('\n'),
        info_text(i).last() != '\r',
        info_text(i).last() != '\n',
        info_text(i).take(i.name.len() + 1int) == i.name + seq![' '],
{
    let xs = seq![i32_text(i.x as int), i32_text(i.y as int), i32_text(i.w as int), i32_text(i.h as int)];
    lemma_i32_text_plain(i.x as int);
    lemma_i32_text_plain(i.y as int);
    lemma_i32_text_plain(i.w as int);
    lemma_i32_text_plain(i.h as int);
    assert forall|k: int| 0 <= k < xs.len() implies !(#[trigger] xs[k]).contains(',') && !xs[k].contains(' ')
        && !xs[k].contains('\n') by {
        if k == 0 {} else if k == 1 {} else if k == 2 {} else {}
    }
    let rect = rect_text(i);
    assert(rect == join_with(xs, seq![',']));
    lemma_join_lacks(xs, ',', ' ');
    lemma_join_lacks(xs, ',', '\n');
    lemma_split_join(xs, ',');
    let g = group_text(i.group);
    let t = info_text(i);
    assert(t =~= i.name + seq![' '] + (rect + seq![' '] + g));
    lemma_split_once_concat(i.name, ' ', rect + seq![' '] + g);
    lemma_split_once_concat(rect, ' ', g);
    lemma_i32_text_parses(i.x);
    lemma_i32_text_parses(i.y);
    lemma_i32_text_parses(i.w);
    lemma_i32_text_parses(i.h);
    if i.group.len() == 0 {
        assert(g == seq!['-']);
        assert(i.group =~= Seq::<Seq<char>>::empty());
    } else {
        lemma_split_join(i.group, ',');
        if i.group.len() == 1 {
            assert(g == i.group[0]);
            assert(i.group =~= seq![i.group[0]]);
        } else {
            lemma_join_has_sep(i.group, ',');
            if g == seq!['-'] {
                let k = choose|k: int| 0 <= k < g.len() && g[k] == ',';
            }
        }
        assert(g != seq!['-']);
    }
    assert(parse_info_spec(t) =~~= Some(i));
    // line breaks and the last character
    if i.group.len() == 0 {
        assert(!g.contains('\n') && !g.contains('\r')) by {
            if g.contains('\n') || g.contains('\r') {
                let k = choose|k: int| 0 <= k < g.len() && (g[k] == '\n' || g[k] == '\r');
            }
        }
    } else {
        lemma_join_lacks(i.group, ',', '\n');
        lemma_join_lacks(i.group, ',', '\r');
    }
    lemma_concat_lacks(i.name, seq![' '], '\n');
    lemma_concat_lacks(i.name + seq![' '], rect, '\n');
    lemma_concat_lacks(i.name + seq![' '] + rect, seq![' '], '\n');
    lemma_concat_lacks(i.name + seq![' '] + rect + seq![' '], g, '\n');
    let head = i.name + seq![' '] + rect + seq![' '];
    assert(t =~= head + g);
    if g.len() > 0 {
        assert(t.last() == g[g.len() - 1]);
    } else {
        assert(t.last() == ' ');
    }
    assert(t.take(i.name.len() + 1int) =~= i.name + seq![' ']);
}

/// Reports that each meet `info_wire_ok` parse back from their lines.
proof fn lemma_parse_infos(infos: Seq<InfoView>)
    requires
        forall|k: int| 0 <= k < infos.len() ==> info_wire_ok(#[trigger] infos[k]),
    ensures
        parse_infos(info_texts(infos)) =~~= infos,
    decreases infos.len(),
{
    if infos.len() > 0 {
        let p = infos.drop_last();
        assert forall|k: int| 0 <= k < p.len() implies info_wire_ok(#[trigger] p[k]) by {
            assert(p[k] == infos[k]);
        }
        lemma_parse_infos(p);
        assert(info_texts(infos).drop_last() =~= info_texts(p));
        assert(info_wire_ok(infos[infos.len() - 1]));
        lemma_info_text(infos.last());
        assert(info_texts(infos).last() == info_text(infos.last()));
        assert(infos =~= p.push(infos.last()));
    }
}

/// Every reply that `response_wire_ok` admits reads back as itself from the
/// text it is sent as.
pub proof fn law_response_round_trip(r: ResponseView)
    requires
        response_wire_ok(r),
    ensures
        parse_response_spec(response_text(r)) =~~= r,
{
    reveal_strlit("error: ");
    reveal_strlit("ok");
    match r {
        ResponseView::Okay => {
            assert(!has_prefix("ok"@, "error: "@));
        },
        ResponseView::Error(m) => {
            let t = "error: "@ + m;
            assert(t.take(7) =~= "error: "@);
            assert(t.skip(7) =~= m);
        },
        ResponseView::Path(p) => {},
        ResponseView::MonitorList(infos) => {
            let ls = info_texts(infos);
            let t = join_with(ls, seq!['\n']);
            assert(info_wire_ok(infos[0]));
            lemma_info_text(infos[0]);
            let name = infos[0].name;
            assert(ls[0] == info_text(infos[0]));
            assert forall|k: int| 0 <= k < ls.len() implies !(#[trigger] ls[k]).contains('\n') && ls[k].len() > 0
                && ls[k].last() != '\r' && ls[k].last() != '\n' by {
                assert(info_wire_ok(infos[k]));
                lemma_info_text(infos[k]);
            }
            lemma_join_prefix(ls, seq!['\n']);
            assert(t =~= name + seq![' '] + t.skip(name.len() + 1int)) by {
                assert forall|k: int| 0 <= k < name.len() + 1 implies t[k] == (name + seq![' '])[k] by {
                    assert(t.take(ls[0].len() as int)[k] == ls[0][k]);
                    assert(ls[0].take(name.len() + 1int)[k] == ls[0][k]);
                }
            }
            lemma_no_error_prefix(name, t.skip(name.len() + 1int));
            assert(!"ok"@.contains(' ')) by {
                if "ok"@.contains(' ') {
                    let k = choose|k: int| 0 <= k < "ok"@.len() && "ok"@[k] == ' ';
                }
            }
            assert(!"ok"@.contains('\n')) by {
                if "ok"@.contains('\n') {
                    let k = choose|k: int| 0 <= k < "ok"@.len() && "ok"@[k] == '\n';
                }
            }
            assert(t[name.len() as int] == ' ');
            assert(t != "ok"@);
            if infos.len() == 1 {
                assert(ls =~= seq![ls[0]]);
                assert(t == ls[0]);
                assert(infos =~= seq![infos[0]]);
            } else {
                lemma_join_has_sep(ls, '\n');
                lemma_split_join(ls, '\n');
                lemma_join_ends(ls, '\n');
                assert(ls.last() == ls[ls.len() - 1]);
                lemma_lines_split(t);
                lemma_parse_infos(infos);
            }
        },
    }
}

} // verus!
