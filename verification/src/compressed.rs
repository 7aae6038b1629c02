//! The compressed text format of Lenia life forms.
//!
//! A pattern is written as `label.data` segments separated by `/`. The first
//! character of a label gives the row ordinal of the segment; a segment with
//! an empty label, or without a `.`, continues the row of the last label.
//! Segments of the same row are joined left to right with one empty cell
//! between them. Each data character is one cell: `0`, `.` and `×` are empty,
//! any other character `c` has the level `clamp(ord(c) - 128, 0, 127)`,
//! which stands for the cell value `level / 127`. The rows, from the smallest
//! ordinal to the largest, are centred in a rectangle as wide as the widest
//! row and padded with empty cells.
use vstd::prelude::*;

verus! {

broadcast use vstd::string::axiom_spec_iter;

/// The separator of segments.
pub const SEGMENT_SEPARATOR: char = '/';

/// The separator of a segment's label from its data.
pub const LABEL_SEPARATOR: char = '.';

/// The level of one data character.
pub open spec fn cell_level(c: char) -> u8 {
    if c == '0' || c == '.' || c == '×' {
        0
    } else if (c as u32) <= 128 {
        0
    } else if (c as u32) >= 255 {
        127
    } else {
        ((c as u32) - 128) as u8
    }
}

/// The levels of a run of data characters.
pub open spec fn levels(s: Seq<char>) -> Seq<u8> {
    s.map_values(|c: char| cell_level(c))
}

/// `s` cut at every occurrence of `sep`, as `str::split` cuts it: `k`
/// separators give `k + 1` pieces, empty ones included.
pub open spec fn split_on(s: Seq<char>, sep: char) -> Seq<Seq<char>>
    decreases s.len(),
{
    if s.len() == 0 {
        seq![Seq::<char>::empty()]
    } else {
        let rest = split_on(s.drop_first(), sep);
        if s[0] == sep {
            seq![Seq::<char>::empty()] + rest
        } else {
            rest.update(0, seq![s[0]] + rest[0])
        }
    }
}

/// The row ordinal that a label character stands for: its code point
/// truncated to 16 bits.
pub open spec fn label_ordinal(c: char) -> u16 {
    ((c as u32) % 0x10000) as u16
}

/// The ordinal of the last label, or 0 before any.
pub open spec fn current_row(last: Option<u16>) -> u16 {
    match last {
        Some(y) => y,
        None => 0,
    }
}

/// The segments that the pieces `pieces` give, each as its row ordinal and
/// its data, when `last` is the ordinal of the last label seen before them.
/// Empty pieces are skipped.
pub open spec fn parse_pieces(pieces: Seq<Seq<char>>, last: Option<u16>) -> Seq<(u16, Seq<char>)>
    decreases pieces.len(),
{
    if pieces.len() == 0 {
        Seq::empty()
    } else {
        let p = pieces[0];
        let rest = pieces.drop_first();
        if p.len() == 0 {
            parse_pieces(rest, last)
        } else {
            match p.index_of_first(LABEL_SEPARATOR) {
                Some(d) => {
                    let label = p.take(d);
                    let y = if label.len() == 0 { current_row(last) } else { label_ordinal(label[0]) };
                    seq![(y, p.skip(d + 1))] + parse_pieces(rest, Some(y))
                },
                None => seq![(current_row(last), p)] + parse_pieces(rest, last),
            }
        }
    }
}

/// The segments of a compressed pattern, in the order they are written.
pub open spec fn segments(data: Seq<char>) -> Seq<(u16, Seq<char>)> {
    parse_pieces(split_on(data, SEGMENT_SEPARATOR), None)
}

/// `s` with `p` put in front of its first piece.
pub open spec fn prepend_first(p: Seq<char>, s: Seq<Seq<char>>) -> Seq<Seq<char>> {
    s.update(0, p + s[0])
}

/// The views of a vector of character vectors.
pub open spec fn views(v: Seq<Vec<char>>) -> Seq<Seq<char>> {
    v.map_values(|x: Vec<char>| x@)
}

proof fn lemma_split_nonempty(s: Seq<char>, sep: char)
    ensures
        split_on(s, sep).len() >= 1,
    decreases s.len(),
{
    if s.len() > 0 {
        lemma_split_nonempty(s.drop_first(), sep);
    }
}

/// The characters of `data`.
fn chars_of(data: &str) -> (cs: Vec<char>)
    ensures
        cs@ == data@,
{
    let mut cs: Vec<char> = Vec::new();
    for c in it: data.chars()
        invariant
            cs@ == it.seq().take(it.index() as int),
    {
        cs.push(c);
    }
    cs
}

/// `s` cut at every `sep`.
fn split_chars(s: &Vec<char>, sep: char) -> (pieces: Vec<Vec<char>>)
    ensures
        views(pieces@) == split_on(s@, sep),
{
    let mut done: Vec<Vec<char>> = Vec::new();
    let mut cur: Vec<char> = Vec::new();
    let mut i: usize = 0;
    proof {
        assert(s@.skip(0) =~= s@);
        lemma_split_nonempty(s@, sep);
        assert(prepend_first(Seq::empty(), split_on(s@, sep)) =~= split_on(s@, sep));
        assert(views(done@) =~= Seq::<Seq<char>>::empty());
        assert(split_on(s@, sep) =~= views(done@) + prepend_first(cur@, split_on(s@.skip(0), sep)));
    }
    while i < s.len()
        invariant
            i <= s.len(),
            split_on(s@, sep) == views(done@) + prepend_first(cur@, split_on(s@.skip(i as int), sep)),
        decreases s.len() - i,
    {
        let c = s[i];
        let ghost rest = split_on(s@.skip(i + 1), sep);
        proof {
            assert(s@.skip(i as int).drop_first() =~= s@.skip(i + 1));
            assert(s@.skip(i as int)[0] == c);
            lemma_split_nonempty(s@.skip(i + 1), sep);
        }
        if c == sep {
            proof {
                assert(prepend_first(cur@, split_on(s@.skip(i as int), sep)) =~= seq![cur@] + prepend_first(Seq::empty(), rest));
                assert(views(done@.push(cur)) =~= views(done@).push(cur@));
            }
            done.push(cur);
            cur = Vec::new();
        } else {
            proof {
                assert(cur@ + (seq![c] + rest[0]) =~= cur@.push(c) + rest[0]);
                assert(prepend_first(cur@, split_on(s@.skip(i as int), sep)) =~= prepend_first(cur@.push(c), rest));
            }
            cur.push(c);
        }
        i += 1;
    }
    proof {
        assert(s@.skip(i as int) =~= Seq::<char>::empty());
        assert(views(done@.push(cur)) =~= views(done@).push(cur@));
        assert(prepend_first(cur@, split_on(s@.skip(i as int), sep)) =~= seq![cur@]);
    }
    done.push(cur);
    done
}

/// The level of one data character of the compressed format: `0`, `.` and
/// `×` are empty cells, any other character has the level
/// `clamp(ord(c) - 128, 0, 127)`.
pub fn decode_cell_char(c: char) -> (level: u8)
    ensures
        level == cell_level(c),
        level <= 127,
{
    if c == '0' || c == '.' || c == '×' {
        0
    } else {
        let code = c as u32;
        if code <= 128 {
            0
        } else if code >= 255 {
            127
        } else {
            (code - 128) as u8
        }
    }
}

/// The levels of the characters of `p` from position `from` on.
fn levels_from(p: &Vec<char>, from: usize) -> (l: Vec<u8>)
    requires
        from <= p.len(),
    ensures
        l@ == levels(p@.skip(from as int)),
{
    let mut l: Vec<u8> = Vec::new();
    let mut i: usize = from;
    while i < p.len()
        invariant
            from <= i <= p.len(),
            l@ == levels(p@.subrange(from as int, i as int)),
        decreases p.len() - i,
    {
        let level = decode_cell_char(p[i]);
        proof {
            assert(p@.subrange(from as int, i + 1) =~= p@.subrange(from as int, i as int).push(p@[i as int]));
            assert(levels(p@.subrange(from as int, i as int).push(p@[i as int])) =~= levels(p@.subrange(from as int, i as int)).push(level));
        }
        l.push(level);
        i += 1;
    }
    proof {
        assert(p@.subrange(from as int, i as int) =~= p@.skip(from as int));
    }
    l
}

/// The position of the first `.` in `p`, if there is one.
fn find_label_end(p: &Vec<char>) -> (d: Option<usize>)
    ensures
        d matches Some(k) ==> k < p.len() && p@.index_of_first(LABEL_SEPARATOR) == Some(k as int),
        d is None ==> p@.index_of_first(LABEL_SEPARATOR) is None,
{
    let mut i: usize = 0;
    while i < p.len()
        invariant
            i <= p.len(),
            forall|j: int| 0 <= j < i ==> p@[j] != LABEL_SEPARATOR,
        decreases p.len() - i,
    {
        if p[i] == LABEL_SEPARATOR {
            proof {
                p@.index_of_first_ensures(LABEL_SEPARATOR);
                match p@.index_of_first(LABEL_SEPARATOR) {
                    Some(k) => {
                        assert(!(k < i)) by { assert(p@[k] == LABEL_SEPARATOR); }
                        assert(!(i < k)) by { assert(p@[i as int] == LABEL_SEPARATOR); }
                    },
                    None => {
                        assert(p@.contains(LABEL_SEPARATOR)) by { assert(p@[i as int] == LABEL_SEPARATOR); }
                    },
                }
            }
            return Some(i);
        }
        i += 1;
    }
    proof {
        p@.index_of_first_ensures(LABEL_SEPARATOR);
        if p@.index_of_first(LABEL_SEPARATOR) is Some {
            let k = p@.index_of_first(LABEL_SEPARATOR).unwrap();
            assert(p@[k] == LABEL_SEPARATOR);
        }
    }
    None
}

/// A segment with its data decoded to levels.
pub open spec fn level_segment(s: (u16, Seq<char>)) -> (u16, Seq<u8>) {
    (s.0, levels(s.1))
}

/// The views of decoded segments.
pub open spec fn segment_views(v: Seq<(u16, Vec<u8>)>) -> Seq<(u16, Seq<u8>)> {
    v.map_values(|e: (u16, Vec<u8>)| (e.0, e.1@))
}

/// The segments of the pieces, with their data decoded.
fn parse_segments(pieces: &Vec<Vec<char>>) -> (segs: Vec<(u16, Vec<u8>)>)
    ensures
        segment_views(segs@) == parse_pieces(views(pieces@), None).map_values(|s: (u16, Seq<char>)| level_segment(s)),
{
    let ghost all = parse_pieces(views(pieces@), None);
    let ghost mut done: Seq<(u16, Seq<char>)> = Seq::empty();
    let mut segs: Vec<(u16, Vec<u8>)> = Vec::new();
    let mut last: Option<u16> = None;
    let mut k: usize = 0;
    proof {
        assert(views(pieces@).skip(0) =~= views(pieces@));
        assert(done + parse_pieces(views(pieces@).skip(0), last) =~= all);
    }
    while k < pieces.len()
        invariant
            k <= pieces.len(),
            all == parse_pieces(views(pieces@), None),
            done + parse_pieces(views(pieces@).skip(k as int), last) == all,
            segment_views(segs@) == done.map_values(|s: (u16, Seq<char>)| level_segment(s)),
        decreases pieces.len() - k,
    {
        let p = &pieces[k];
        let ghost ps = views(pieces@).skip(k as int);
        let ghost rest = views(pieces@).skip(k + 1);
        proof {
            assert(ps.drop_first() =~= rest);
            assert(ps[0] == p@);
        }
        if p.len() == 0 {
        } else {
            let d = find_label_end(p);
            let y: u16;
            let data: Vec<u8>;
            let ghost item: (u16, Seq<char>);
            match d {
                Some(dot) => {
                    if dot == 0 {
                        y = match last { Some(v) => v, None => 0 };
                    } else {
                        y = ((p[0] as u32) % 0x10000) as u16;
                    }
                    data = levels_from(p, dot + 1);
                    proof {
                        item = (y, p@.skip(dot + 1));
                        assert(p@.take(dot as int).len() == dot);
                        assert(dot > 0 ==> p@.take(dot as int)[0] == p@[0]);
                        assert(parse_pieces(ps, last) == seq![item] + parse_pieces(rest, Some(y)));
                    }
                    last = Some(y);
                },
                None => {
                    y = match last { Some(v) => v, None => 0 };
                    data = levels_from(p, 0);
                    proof {
                        assert(p@.skip(0) =~= p@);
                        item = (y, p@);
                        assert(parse_pieces(ps, last) == seq![item] + parse_pieces(rest, last));
                    }
                },
            }
            proof {
                assert(done + seq![item] =~= done.push(item));
                assert(done.push(item).map_values(|s: (u16, Seq<char>)| level_segment(s))
                    =~= done.map_values(|s: (u16, Seq<char>)| level_segment(s)).push(level_segment(item)));
                assert(segment_views(segs@.push((y, data))) =~= segment_views(segs@).push((y, data@)));
                done = done.push(item);
            }
            segs.push((y, data));
        }
        k += 1;
    }
    proof {
        assert(views(pieces@).skip(k as int) =~= Seq::<Seq<char>>::empty());
        assert(done + Seq::<(u16, Seq<char>)>::empty() =~= done);
    }
    segs
}

/// The data of the segments on row `y`, in the order they are written.
pub open spec fn row_parts(segs: Seq<(u16, Seq<u8>)>, y: u16) -> Seq<Seq<u8>>
    decreases segs.len(),
{
    if segs.len() == 0 {
        Seq::empty()
    } else {
        let prev = row_parts(segs.drop_last(), y);
        if segs.last().0 == y {
            prev.push(segs.last().1)
        } else {
            prev
        }
    }
}

/// The parts laid end to end with one empty cell between consecutive parts.
pub open spec fn join_with_gap(parts: Seq<Seq<u8>>) -> Seq<u8>
    decreases parts.len(),
{
    if parts.len() == 0 {
        Seq::empty()
    } else if parts.len() == 1 {
        parts[0]
    } else {
        join_with_gap(parts.drop_last()) + seq![0u8] + parts.last()
    }
}

/// The levels of row `y` before centring.
pub open spec fn row_levels(segs: Seq<(u16, Seq<u8>)>, y: u16) -> Seq<u8> {
    join_with_gap(row_parts(segs, y))
}

/// The smallest row ordinal of the segments, 0 when there are none.
pub open spec fn min_row(segs: Seq<(u16, Seq<u8>)>) -> u16
    decreases segs.len(),
{
    if segs.len() == 0 {
        0
    } else if segs.len() == 1 {
        segs[0].0
    } else {
        let m = min_row(segs.drop_last());
        if segs.last().0 < m { segs.last().0 } else { m }
    }
}

/// The largest row ordinal of the segments, 0 when there are none.
pub open spec fn max_row(segs: Seq<(u16, Seq<u8>)>) -> u16
    decreases segs.len(),
{
    if segs.len() == 0 {
        0
    } else if segs.len() == 1 {
        segs[0].0
    } else {
        let m = max_row(segs.drop_last());
        if segs.last().0 > m { segs.last().0 } else { m }
    }
}

/// The levels of the row `r` places after ordinal `lo`.
pub open spec fn row_at(segs: Seq<(u16, Seq<u8>)>, lo: int, r: int) -> Seq<u8> {
    row_levels(segs, (lo + r) as u16)
}

/// The length of the longest of the `n` rows from ordinal `lo` on.
pub open spec fn widest(segs: Seq<(u16, Seq<u8>)>, lo: int, n: int) -> int
    decreases n,
{
    if n <= 0 {
        0
    } else {
        let w = widest(segs, lo, n - 1);
        let l = row_at(segs, lo, n - 1).len() as int;
        if l > w { l } else { w }
    }
}

/// `row` centred in `width` cells: `(width - row.len()) / 2` empty cells on
/// the left, the row, and empty cells up to `width`.
pub open spec fn centred(row: Seq<u8>, width: int) -> Seq<u8> {
    let pad = (width - row.len()) / 2;
    Seq::new(width as nat, |c: int| if pad <= c < pad + row.len() { row[c - pad] } else { 0u8 })
}

/// The decoded segments of a compressed pattern.
pub open spec fn decoded_segments(data: Seq<char>) -> Seq<(u16, Seq<u8>)> {
    segments(data).map_values(|s: (u16, Seq<char>)| level_segment(s))
}

/// The number of rows of the decoded grid.
pub open spec fn num_rows(segs: Seq<(u16, Seq<u8>)>) -> int {
    max_row(segs) - min_row(segs) + 1
}

/// The width of the decoded grid.
pub open spec fn grid_width(segs: Seq<(u16, Seq<u8>)>) -> int {
    widest(segs, min_row(segs) as int, num_rows(segs))
}

/// Row `r` of the decoded grid.
pub open spec fn grid_row(segs: Seq<(u16, Seq<u8>)>, r: int) -> Seq<u8> {
    centred(row_at(segs, min_row(segs) as int, r), grid_width(segs))
}

proof fn lemma_min_le_max(segs: Seq<(u16, Seq<u8>)>)
    ensures
        min_row(segs) <= max_row(segs),
        forall|i: int| 0 <= i < segs.len() ==> min_row(segs) <= #[trigger] segs[i].0 <= max_row(segs),
    decreases segs.len(),
{
    if segs.len() > 1 {
        lemma_min_le_max(segs.drop_last());
        assert forall|i: int| 0 <= i < segs.len() implies min_row(segs) <= #[trigger] segs[i].0 <= max_row(segs) by {
            if i < segs.len() - 1 {
                assert(segs[i] == segs.drop_last()[i]);
            }
        }
    }
}

proof fn lemma_join_push(parts: Seq<Seq<u8>>, p: Seq<u8>)
    ensures
        join_with_gap(parts.push(p)) == if parts.len() == 0 {
            p
        } else {
            join_with_gap(parts) + seq![0u8] + p
        },
{
    assert(parts.push(p).drop_last() =~= parts);
    if parts.len() == 0 {
        assert(parts.push(p)[0] == p);
    }
}

/// Appends the levels of `src` to `row`.
fn append_levels(row: &mut Vec<u8>, src: &Vec<u8>)
    ensures
        final(row)@ == old(row)@ + src@,
{
    let mut i: usize = 0;
    while i < src.len()
        invariant
            i <= src.len(),
            row@ == old(row)@ + src@.take(i as int),
        decreases src.len() - i,
    {
        proof {
            assert(src@.take(i + 1) =~= src@.take(i as int).push(src@[i as int]));
        }
        row.push(src[i]);
        i += 1;
    }
    proof {
        assert(src@.take(i as int) =~= src@);
    }
}

/// The levels of row `y` of the decoded segments.
fn build_row(segs: &Vec<(u16, Vec<u8>)>, y: u16) -> (row: Vec<u8>)
    ensures
        row@ == row_levels(segment_views(segs@), y),
{
    let ghost sv = segment_views(segs@);
    let mut row: Vec<u8> = Vec::new();
    let mut started = false;
    let mut j: usize = 0;
    proof {
        assert(sv.take(0) =~= Seq::<(u16, Seq<u8>)>::empty());
    }
    while j < segs.len()
        invariant
            j <= segs.len(),
            sv == segment_views(segs@),
            row@ == join_with_gap(row_parts(sv.take(j as int), y)),
            started == (row_parts(sv.take(j as int), y).len() > 0),
        decreases segs.len() - j,
    {
        let ghost parts = row_parts(sv.take(j as int), y);
        proof {
            assert(sv.take(j + 1).drop_last() =~= sv.take(j as int));
            assert(sv.take(j + 1).last() == sv[j as int]);
            assert(sv[j as int] == (segs@[j as int].0, segs@[j as int].1@));
        }
        if segs[j].0 == y {
            proof {
                lemma_join_push(parts, segs@[j as int].1@);
            }
            if started {
                row.push(0);
            }
            append_levels(&mut row, &segs[j].1);
            started = true;
            proof {
                assert(row_parts(sv.take(j + 1), y) == parts.push(segs@[j as int].1@));
                if parts.len() > 0 {
                    assert(row@ =~= join_with_gap(parts) + seq![0u8] + segs@[j as int].1@);
                }
            }
        }
        j += 1;
    }
    proof {
        assert(sv.take(j as int) =~= sv);
    }
    row
}

proof fn lemma_widest_bounds(segs: Seq<(u16, Seq<u8>)>, lo: int, n: int)
    ensures
        widest(segs, lo, n) >= 0,
        forall|r: int| 0 <= r < n ==> (#[trigger] row_at(segs, lo, r)).len() <= widest(segs, lo, n),
    decreases n,
{
    if n > 0 {
        lemma_widest_bounds(segs, lo, n - 1);
    }
}

/// Every level in `segs` is at most 127.
pub open spec fn segments_bounded(segs: Seq<(u16, Seq<u8>)>) -> bool {
    forall|i: int, k: int| 0 <= i < segs.len() && 0 <= k < segs[i].1.len() ==> #[trigger] segs[i].1[k] <= 127
}

proof fn lemma_decoded_bounded(data: Seq<char>)
    ensures
        segments_bounded(decoded_segments(data)),
{
    let segs = decoded_segments(data);
    assert forall|i: int, k: int| 0 <= i < segs.len() && 0 <= k < segs[i].1.len() implies #[trigger] segs[i].1[k] <= 127 by {
        let raw = segments(data)[i];
        assert(segs[i] == level_segment(raw));
        assert(segs[i].1[k] == cell_level(raw.1[k]));
    }
}

proof fn lemma_row_parts_bounded(segs: Seq<(u16, Seq<u8>)>, y: u16)
    requires
        segments_bounded(segs),
    ensures
        forall|i: int, k: int| 0 <= i < row_parts(segs, y).len() && 0 <= k < row_parts(segs, y)[i].len() ==>
            #[trigger] row_parts(segs, y)[i][k] <= 127,
    decreases segs.len(),
{
    if segs.len() > 0 {
        let prev = segs.drop_last();
        assert forall|i: int, k: int| 0 <= i < prev.len() && 0 <= k < prev[i].1.len() implies #[trigger] prev[i].1[k] <= 127 by {
            assert(prev[i] == segs[i]);
        }
        lemma_row_parts_bounded(prev, y);
        let last = segs.len() - 1;
        let parts = row_parts(segs, y);
        let pp = row_parts(prev, y);
        assert forall|i: int, k: int| 0 <= i < parts.len() && 0 <= k < parts[i].len() implies #[trigger] parts[i][k] <= 127 by {
            if segs.last().0 == y && i == pp.len() {
                assert(parts[i] == segs[last].1);
                assert(segs[last].1[k] <= 127);
            } else {
                assert(parts[i] == pp[i]);
                assert(pp[i][k] <= 127);
            }
        }
    }
}

proof fn lemma_join_bounded(parts: Seq<Seq<u8>>)
    requires
        forall|i: int, k: int| 0 <= i < parts.len() && 0 <= k < parts[i].len() ==> #[trigger] parts[i][k] <= 127,
    ensures
        forall|k: int| 0 <= k < join_with_gap(parts).len() ==> #[trigger] join_with_gap(parts)[k] <= 127,
    decreases parts.len(),
{
    if parts.len() > 1 {
        let prev = parts.drop_last();
        assert forall|i: int, k: int| 0 <= i < prev.len() && 0 <= k < prev[i].len() implies #[trigger] prev[i][k] <= 127 by {
            assert(prev[i] == parts[i]);
        }
        lemma_join_bounded(prev);
        let j = join_with_gap(parts);
        let a = join_with_gap(prev);
        let l = parts.last();
        assert forall|k: int| 0 <= k < j.len() implies #[trigger] j[k] <= 127 by {
            assert(j == a + seq![0u8] + l);
            if k < a.len() {
                assert(j[k] == a[k]);
            } else if k > a.len() {
                assert(j[k] == l[k - a.len() - 1]);
                assert(parts[parts.len() - 1][k - a.len() - 1] <= 127);
            }
        }
    } else if parts.len() == 1 {
        assert forall|k: int| 0 <= k < join_with_gap(parts).len() implies #[trigger] join_with_gap(parts)[k] <= 127 by {
            assert(parts[0][k] <= 127);
        }
    }
}

/// Every cell of every row of a decoded grid has a level of at most 127,
/// that is a value in `[0, 1]`, and every row is as wide as the grid.
pub proof fn lemma_grid_row_bounded(segs: Seq<(u16, Seq<u8>)>, r: int)
    requires
        segments_bounded(segs),
    ensures
        grid_row(segs, r).len() == grid_width(segs),
        forall|c: int| 0 <= c < grid_row(segs, r).len() ==> #[trigger] grid_row(segs, r)[c] <= 127,
{
    lemma_widest_bounds(segs, min_row(segs) as int, num_rows(segs));
    let row = row_at(segs, min_row(segs) as int, r);
    lemma_row_parts_bounded(segs, (min_row(segs) + r) as u16);
    lemma_join_bounded(row_parts(segs, (min_row(segs) + r) as u16));
    let w = grid_width(segs);
    let pad = (w - row.len()) / 2;
    assert forall|c: int| 0 <= c < grid_row(segs, r).len() implies #[trigger] grid_row(segs, r)[c] <= 127 by {
        if pad <= c < pad + row.len() {
            assert(row[c - pad] <= 127);
        }
    }
}

/// `row` centred in `width` cells.
fn centre_row(row: &Vec<u8>, width: usize) -> (out: Vec<u8>)
    requires
        row.len() <= width,
    ensures
        out@ == centred(row@, width as int),
{
    let pad = (width - row.len()) / 2;
    let mut out: Vec<u8> = Vec::new();
    let mut c: usize = 0;
    while c < width
        invariant
            c <= width,
            row.len() <= width,
            pad == (width - row.len()) / 2,
            out.len() == c,
            forall|k: int| 0 <= k < c ==> out@[k] == centred(row@, width as int)[k],
        decreases width - c,
    {
        if pad <= c && c < pad + row.len() {
            out.push(row[c - pad]);
        } else {
            out.push(0);
        }
        c += 1;
    }
    proof {
        assert(out@ =~= centred(row@, width as int));
    }
    out
}

/// Decodes a life form written in the compressed format into a rectangular
/// grid of cell levels, row by row from the smallest row ordinal to the
/// largest; each row is centred in the width of the widest row.
pub fn decode_compressed(data: &str) -> (grid: Vec<Vec<u8>>)
    ensures
        grid.len() == num_rows(decoded_segments(data@)),
        forall|r: int| 0 <= r < grid.len() ==> (#[trigger] grid[r])@ == grid_row(decoded_segments(data@), r),
        forall|r: int| 0 <= r < grid.len() ==> (#[trigger] grid[r]).len() == grid_width(decoded_segments(data@)),
        forall|r: int, c: int| 0 <= r < grid.len() && 0 <= c < grid[r].len() ==> #[trigger] grid[r][c] <= 127,
{
    let cs = chars_of(data);
    let pieces = split_chars(&cs, SEGMENT_SEPARATOR);
    let segs = parse_segments(&pieces);
    let ghost sv = segment_views(segs@);
    assert(sv == decoded_segments(data@));

    let mut lo: u16 = 0;
    let mut hi: u16 = 0;
    let mut i: usize = 0;
    while i < segs.len()
        invariant
            i <= segs.len(),
            sv == segment_views(segs@),
            lo == min_row(sv.take(i as int)),
            hi == max_row(sv.take(i as int)),
        decreases segs.len() - i,
    {
        let y = segs[i].0;
        proof {
            assert(sv.take(i + 1).drop_last() =~= sv.take(i as int));
            assert(sv.take(i + 1).last() == sv[i as int]);
            assert(sv[i as int].0 == y);
            if i == 0 {
                assert(sv.take(1)[0] == sv[0]);
            }
        }
        if i == 0 {
            lo = y;
            hi = y;
        } else {
            if y < lo {
                lo = y;
            }
            if y > hi {
                hi = y;
            }
        }
        i += 1;
    }
    proof {
        assert(sv.take(i as int) =~= sv);
        lemma_min_le_max(sv);
    }
    let n: usize = (hi - lo) as usize + 1;

    let mut rows: Vec<Vec<u8>> = Vec::new();
    let mut width: usize = 0;
    let mut r: usize = 0;
    while r < n
        invariant
            r <= n,
            n == num_rows(sv),
            lo == min_row(sv),
            lo as int + n - 1 <= u16::MAX,
            sv == segment_views(segs@),
            rows.len() == r,
            forall|k: int| 0 <= k < r ==> (#[trigger] rows[k])@ == row_at(sv, lo as int, k),
            width == widest(sv, lo as int, r as int),
        decreases n - r,
    {
        let row = build_row(&segs, lo + r as u16);
        if row.len() > width {
            width = row.len();
        }
        rows.push(row);
        r += 1;
    }
    proof {
        lemma_widest_bounds(sv, lo as int, n as int);
    }

    let mut grid: Vec<Vec<u8>> = Vec::new();
    let mut k: usize = 0;
    while k < n
        invariant
            k <= n,
            n == num_rows(sv),
            rows.len() == n,
            lo == min_row(sv),
            width == grid_width(sv),
            forall|j: int| 0 <= j < n ==> (#[trigger] rows[j])@ == row_at(sv, lo as int, j),
            forall|j: int| 0 <= j < n ==> (#[trigger] row_at(sv, lo as int, j)).len() <= width,
            grid.len() == k,
            forall|j: int| 0 <= j < k ==> (#[trigger] grid[j])@ == grid_row(sv, j),
        decreases n - k,
    {
        assert(rows[k as int]@ == row_at(sv, lo as int, k as int));
        let line = centre_row(&rows[k], width);
        grid.push(line);
        k += 1;
    }
    proof {
        lemma_decoded_bounded(data@);
        assert forall|r: int, c: int| 0 <= r < grid.len() && 0 <= c < grid[r].len() implies #[trigger] grid[r][c] <= 127 by {
            lemma_grid_row_bounded(sv, r);
            assert(grid[r]@ == grid_row(sv, r));
            assert(grid[r]@[c] == grid_row(sv, r)[c]);
        }
        assert forall|r: int| 0 <= r < grid.len() implies (#[trigger] grid[r]).len() == grid_width(sv) by {
            lemma_grid_row_bounded(sv, r);
        }
    }
    grid
}

proof fn lemma_split_without_separator(s: Seq<char>, sep: char)
    requires
        !s.contains(sep),
    ensures
        split_on(s, sep) == seq![s],
    decreases s.len(),
{
    if s.len() > 0 {
        let t = s.drop_first();
        assert(!t.contains(sep)) by {
            if t.contains(sep) {
                let k = choose|k: int| 0 <= k < t.len() && t[k] == sep;
                assert(s[k + 1] == sep);
            }
        }
        lemma_split_without_separator(t, sep);
        assert(s[0] != sep) by {
            if s[0] == sep {
                assert(s.contains(sep));
            }
        }
        assert(seq![s[0]] + t =~= s);
        assert(split_on(s, sep) =~= seq![s]);
    } else {
        assert(s =~= Seq::<char>::empty());
    }
}

/// A pattern of one segment, a label without `.` or `/` followed by `.` and
/// data without `/`, decodes to a single row holding exactly the levels of
/// the data characters, in order and without padding.
pub proof fn lemma_single_segment(label: Seq<char>, data: Seq<char>)
    requires
        label.len() > 0,
        !label.contains(LABEL_SEPARATOR),
        !label.contains(SEGMENT_SEPARATOR),
        !data.contains(SEGMENT_SEPARATOR),
    ensures
        ({
            let segs = decoded_segments(label + seq![LABEL_SEPARATOR] + data);
            &&& num_rows(segs) == 1
            &&& grid_row(segs, 0).len() == data.len()
            &&& forall|k: int| 0 <= k < data.len() ==> grid_row(segs, 0)[k] == cell_level(#[trigger] data[k])
        }),
{
    let p = label + seq![LABEL_SEPARATOR] + data;
    let d = label.len() as int;
    assert(!p.contains(SEGMENT_SEPARATOR)) by {
        if p.contains(SEGMENT_SEPARATOR) {
            let k = choose|k: int| 0 <= k < p.len() && p[k] == SEGMENT_SEPARATOR;
            if k < d {
                assert(label[k] == SEGMENT_SEPARATOR);
            } else if k > d {
                assert(data[k - d - 1] == SEGMENT_SEPARATOR);
            }
        }
    }
    lemma_split_without_separator(p, SEGMENT_SEPARATOR);
    p.index_of_first_ensures(LABEL_SEPARATOR);
    assert(p[d] == LABEL_SEPARATOR);
    assert(p.index_of_first(LABEL_SEPARATOR) == Some(d)) by {
        match p.index_of_first(LABEL_SEPARATOR) {
            Some(k) => {
                if k < d {
                    assert(label[k] == LABEL_SEPARATOR);
                    assert(label.contains(LABEL_SEPARATOR));
                }
                assert(!(d < k));
            },
            None => {
                assert(p.contains(LABEL_SEPARATOR));
            },
        }
    }
    assert(p.take(d) =~= label);
    assert(p.skip(d + 1) =~= data);
    let y = label_ordinal(label[0]);
    let pieces = seq![p];
    assert(pieces.drop_first() =~= Seq::<Seq<char>>::empty());
    assert(pieces[0] == p);
    assert(p.len() > 0);
    assert(p.take(d)[0] == label[0]);
    assert(parse_pieces(pieces.drop_first(), Some(y)) =~= Seq::<(u16, Seq<char>)>::empty());
    assert(parse_pieces(pieces, None) == seq![(y, p.skip(d + 1))] + parse_pieces(pieces.drop_first(), Some(y)));
    assert(parse_pieces(pieces, None) =~= seq![(y, data)]);
    let segs = decoded_segments(p);
    assert(segs =~= seq![(y, levels(data))]);
    assert(min_row(segs) == y);
    assert(max_row(segs) == y);
    assert(segs.drop_last() =~= Seq::<(u16, Seq<u8>)>::empty());
    assert(row_parts(segs.drop_last(), y) =~= Seq::<Seq<u8>>::empty());
    assert(segs.last() == (y, levels(data)));
    assert(row_parts(segs, y) =~= seq![levels(data)]);
    assert(row_levels(segs, y) == levels(data));
    assert(row_at(segs, y as int, 0) == levels(data));
    assert(widest(segs, y as int, 0) == 0);
    assert(grid_width(segs) == data.len());
    assert(grid_row(segs, 0) =~= levels(data));
}

proof fn lemma_split_at_first_separator(a: Seq<char>, b: Seq<char>, sep: char)
    requires
        !a.contains(sep),
    ensures
        split_on(a + seq![sep] + b, sep) == seq![a] + split_on(b, sep),
    decreases a.len(),
{
    let s = a + seq![sep] + b;
    if a.len() == 0 {
        assert(s.drop_first() =~= b);
        assert(s[0] == sep);
        assert(a =~= Seq::<char>::empty());
    } else {
        let t = a.drop_first();
        assert(!t.contains(sep)) by {
            if t.contains(sep) {
                let k = choose|k: int| 0 <= k < t.len() && t[k] == sep;
                assert(a[k + 1] == sep);
            }
        }
        lemma_split_at_first_separator(t, b, sep);
        assert(s.drop_first() =~= t + seq![sep] + b);
        assert(s[0] == a[0]);
        assert(a[0] != sep) by {
            if a[0] == sep {
                assert(a.contains(sep));
            }
        }
        assert(seq![a[0]] + t =~= a);
        assert(split_on(s, sep) =~= seq![a] + split_on(b, sep));
    }
}

/// A pattern of a labelled segment followed by a segment that continues the
/// same row (written either without a label separator, or with an empty
/// label) decodes to a single row: the levels of the first data, one empty
/// cell, and the levels of the second data.
pub proof fn lemma_continued_row(label: Seq<char>, first: Seq<char>, second: Seq<char>, empty_label: bool)
    requires
        label.len() > 0,
        !label.contains(LABEL_SEPARATOR),
        !label.contains(SEGMENT_SEPARATOR),
        !first.contains(SEGMENT_SEPARATOR),
        !second.contains(SEGMENT_SEPARATOR),
        !empty_label ==> second.len() > 0 && !second.contains(LABEL_SEPARATOR),
    ensures
        ({
            let tail = if empty_label { seq![LABEL_SEPARATOR] + second } else { second };
            let segs = decoded_segments(label + seq![LABEL_SEPARATOR] + first + seq![SEGMENT_SEPARATOR] + tail);
            &&& num_rows(segs) == 1
            &&& grid_row(segs, 0) == levels(first) + seq![0u8] + levels(second)
        }),
{
    let tail = if empty_label { seq![LABEL_SEPARATOR] + second } else { second };
    let p = label + seq![LABEL_SEPARATOR] + first;
    let d = label.len() as int;
    let whole = label + seq![LABEL_SEPARATOR] + first + seq![SEGMENT_SEPARATOR] + tail;
    assert(whole =~= p + seq![SEGMENT_SEPARATOR] + tail);
    assert(!p.contains(SEGMENT_SEPARATOR)) by {
        if p.contains(SEGMENT_SEPARATOR) {
            let k = choose|k: int| 0 <= k < p.len() && p[k] == SEGMENT_SEPARATOR;
            if k < d {
                assert(label[k] == SEGMENT_SEPARATOR);
            } else if k > d {
                assert(first[k - d - 1] == SEGMENT_SEPARATOR);
            }
        }
    }
    assert(!tail.contains(SEGMENT_SEPARATOR)) by {
        if tail.contains(SEGMENT_SEPARATOR) {
            let k = choose|k: int| 0 <= k < tail.len() && tail[k] == SEGMENT_SEPARATOR;
            if empty_label {
                if k > 0 {
                    assert(second[k - 1] == SEGMENT_SEPARATOR);
                }
            } else {
                assert(second[k] == SEGMENT_SEPARATOR);
            }
        }
    }
    lemma_split_at_first_separator(p, tail, SEGMENT_SEPARATOR);
    lemma_split_without_separator(tail, SEGMENT_SEPARATOR);
    let pieces = seq![p, tail];
    assert(split_on(whole, SEGMENT_SEPARATOR) =~= pieces);

    p.index_of_first_ensures(LABEL_SEPARATOR);
    assert(p[d] == LABEL_SEPARATOR);
    assert(p.index_of_first(LABEL_SEPARATOR) == Some(d)) by {
        match p.index_of_first(LABEL_SEPARATOR) {
            Some(k) => {
                if k < d {
                    assert(label[k] == LABEL_SEPARATOR);
                    assert(label.contains(LABEL_SEPARATOR));
                }
                assert(!(d < k));
            },
            None => {
                assert(p.contains(LABEL_SEPARATOR));
            },
        }
    }
    assert(p.take(d) =~= label);
    assert(p.skip(d + 1) =~= first);
    assert(p.take(d)[0] == label[0]);
    let y = label_ordinal(label[0]);

    let rest = pieces.drop_first();
    assert(rest =~= seq![tail]);
    assert(rest.drop_first() =~= Seq::<Seq<char>>::empty());
    assert(rest[0] == tail);
    assert(tail.len() > 0);
    tail.index_of_first_ensures(LABEL_SEPARATOR);
    if empty_label {
        assert(tail[0] == LABEL_SEPARATOR);
        assert(tail.index_of_first(LABEL_SEPARATOR) == Some(0int)) by {
            match tail.index_of_first(LABEL_SEPARATOR) {
                Some(k) => {
                    assert(!(0 < k));
                },
                None => {
                    assert(tail.contains(LABEL_SEPARATOR));
                },
            }
        }
        assert(tail.take(0).len() == 0);
        assert(tail.skip(1) =~= second);
        assert(parse_pieces(rest.drop_first(), Some(y)) =~= Seq::<(u16, Seq<char>)>::empty());
        assert(parse_pieces(rest, Some(y)) =~= seq![(y, second)]);
    } else {
        assert(tail.index_of_first(LABEL_SEPARATOR) is None);
        assert(parse_pieces(rest.drop_first(), Some(y)) =~= Seq::<(u16, Seq<char>)>::empty());
        assert(parse_pieces(rest, Some(y)) =~= seq![(y, second)]);
    }
    assert(p.len() > 0);
    assert(pieces[0] == p);
    assert(parse_pieces(pieces, None) == seq![(y, first)] + parse_pieces(rest, Some(y)));
    assert(parse_pieces(pieces, None) =~= seq![(y, first), (y, second)]);
    let segs = decoded_segments(whole);
    assert(segs =~= seq![(y, levels(first)), (y, levels(second))]);
    assert(segs.drop_last() =~= seq![(y, levels(first))]);
    assert(segs.drop_last()[0].0 == y);
    assert(min_row(segs.drop_last()) == y);
    assert(max_row(segs.drop_last()) == y);
    assert(segs.last().0 == y);
    assert(min_row(segs) == y);
    assert(max_row(segs) == y);
    let one = segs.drop_last();
    assert(one.drop_last() =~= Seq::<(u16, Seq<u8>)>::empty());
    assert(row_parts(one.drop_last(), y) =~= Seq::<Seq<u8>>::empty());
    assert(one.last() == (y, levels(first)));
    assert(row_parts(one, y) =~= seq![levels(first)]);
    assert(row_parts(segs, y) =~= seq![levels(first), levels(second)]);
    let parts = row_parts(segs, y);
    assert(parts.drop_last() =~= seq![levels(first)]);
    assert(join_with_gap(parts.drop_last()) == levels(first));
    assert(row_levels(segs, y) == levels(first) + seq![0u8] + levels(second));
    let row = levels(first) + seq![0u8] + levels(second);
    assert(row_at(segs, y as int, 0) == row);
    assert(widest(segs, y as int, 0) == 0);
    assert(grid_width(segs) == row.len());
    assert(grid_row(segs, 0) =~= row);
}

/// `out` is `row` laid in `width` cells after `pad` empty cells, with at
/// most one cell more of padding on the right than on the left.
pub open spec fn balanced_padding(out: Seq<u8>, row: Seq<u8>, width: int, pad: int) -> bool {
    &&& 0 <= pad
    &&& pad <= width - row.len() - pad <= pad + 1
    &&& out.len() == width
    &&& forall|c: int| 0 <= c < width ==> (#[trigger] out[c]
        == if pad <= c < pad + row.len() { row[c - pad] } else { 0u8 })
}

/// Centring pads a row as evenly as it can: the row's levels follow a left
/// padding, in order, with at most one empty cell more on the right than on
/// the left, and every other cell is empty.
pub proof fn lemma_centred_balanced(row: Seq<u8>, width: int)
    requires
        row.len() <= width,
    ensures
        exists|pad: int| balanced_padding(centred(row, width), row, width, pad),
{
    let pad = (width - row.len()) / 2;
    assert(balanced_padding(centred(row, width), row, width, pad));
}

} // verus!
