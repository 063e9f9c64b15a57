//! The opening book: a text of entries, each `pos ` and a position's first
//! four FEN fields on a line, then one line per book move with the move in
//! coordinate notation and how often it was played; and the key under which
//! a position is looked up.
use vstd::prelude::*;
use crate::text::{
    chars_of, trim, find, fields, parse_u32, trim_chars, find_chars, slice_chars, split_fields, parse_u32_chars,
    string_from_chars, chars_eq, lemma_find_from,
};
use crate::zobrist::Rng;

verus! {

/// `str::split` by a non-empty pattern: the pieces between its occurrences,
/// each found leftmost from the end of the one before.
pub open spec fn split_pat(s: Seq<char>, pat: Seq<char>) -> Seq<Seq<char>>
    decreases s.len(),
{
    if pat.len() == 0 {
        seq![s]
    } else {
        match find(s, pat) {
            Some(i) => {
                if 0 <= i && i + pat.len() <= s.len() {
                    seq![s.take(i)] + split_pat(s.skip(i + pat.len()), pat)
                } else {
                    seq![s]
                }
            },
            None => seq![s],
        }
    }
}

/// A line without the carriage return before its line feed.
pub open spec fn strip_cr(l: Seq<char>) -> Seq<char> {
    if l.len() > 0 && l.last() == '\r' {
        l.drop_last()
    } else {
        l
    }
}

/// `str::lines`: the lines of `s`, each without its `\n` or `\r\n`, the
/// last line ending optional.
pub open spec fn lines(s: Seq<char>) -> Seq<Seq<char>>
    decreases s.len(),
{
    if s.len() == 0 {
        Seq::empty()
    } else {
        match find(s, seq!['\n']) {
            Some(i) => {
                if 0 <= i < s.len() {
                    seq![strip_cr(s.take(i))] + lines(s.skip(i + 1))
                } else {
                    seq![s]
                }
            },
            None => seq![s],
        }
    }
}

/// The book moves of the lines `ls`: of each line with at least two fields
/// whose second reads as a count, the first field with that count.
pub open spec fn entry_moves(ls: Seq<Seq<char>>) -> Seq<(Seq<char>, u32)>
    decreases ls.len(),
{
    if ls.len() == 0 {
        Seq::empty()
    } else {
        let f = fields(ls[0]);
        let rest = entry_moves(ls.drop_first());
        if f.len() >= 2 && parse_u32(f[1]) is Some {
            seq![(f[0], parse_u32(f[1]).unwrap())] + rest
        } else {
            rest
        }
    }
}

/// The book read from the entries `es`, on top of `m`: each entry with a
/// first line and at least one move sets the moves of its trimmed first line
/// (a later entry for the same position replacing an earlier one).
pub open spec fn read_entries(m: Map<Seq<char>, Seq<(Seq<char>, u32)>>, es: Seq<Seq<char>>) -> Map<
    Seq<char>,
    Seq<(Seq<char>, u32)>,
>
    decreases es.len(),
{
    if es.len() == 0 {
        m
    } else {
        let ls = lines(es[0]);
        let next = if ls.len() > 0 && entry_moves(ls.drop_first()).len() > 0 {
            m.insert(trim(ls[0]), entry_moves(ls.drop_first()))
        } else {
            m
        };
        read_entries(next, es.drop_first())
    }
}

/// The book a text holds: the entries are what follows each `pos ` in the
/// trimmed text.
pub open spec fn book_of(data: Seq<char>) -> Map<Seq<char>, Seq<(Seq<char>, u32)>> {
    read_entries(Map::empty(), split_pat(trim(data), seq!['p', 'o', 's', ' ']).drop_first())
}

/// The characters of a list of book moves.
pub open spec fn moves_view(v: Seq<(String, u32)>) -> Seq<(Seq<char>, u32)> {
    Seq::new(v.len(), |i: int| (v[i].0@, v[i].1))
}

/// The opening book: positions with their book moves, and the generator
/// that picks among them.
pub struct OpeningBook {
    pub positions: Vec<(String, Vec<(String, u32)>)>,
    pub rng: Rng,
}

impl OpeningBook {
    /// Each position is listed once.
    pub open spec fn wf(&self) -> bool {
        forall|i: int, j: int|
            0 <= i < j < self.positions@.len() ==> #[trigger] self.positions@[i].0@ != #[trigger] self.positions@[j].0@
    }

    /// The book as a map from a position's key to its moves.
    pub open spec fn view(&self) -> Map<Seq<char>, Seq<(Seq<char>, u32)>> {
        Map::new(
            |k: Seq<char>| exists|i: int| 0 <= i < self.positions@.len() && #[trigger] self.positions@[i].0@ == k,
            |k: Seq<char>|
                moves_view(
                    self.positions@[choose|i: int|
                        0 <= i < self.positions@.len() && #[trigger] self.positions@[i].0@ == k].1@,
                ),
        )
    }
}

/// The index at which `positions` lists `key`.
fn index_of_key(positions: &Vec<(String, Vec<(String, u32)>)>, key: &Vec<char>) -> (r: Option<usize>)
    ensures
        match r {
            Some(i) => i < positions@.len() && positions@[i as int].0@ == key@,
            None => forall|i: int| 0 <= i < positions@.len() ==> positions@[i].0@ != key@,
        },
{
    let mut i: usize = 0;
    while i < positions.len()
        invariant
            i <= positions@.len(),
            forall|j: int| 0 <= j < i ==> positions@[j].0@ != key@,
        decreases positions.len() - i,
    {
        let k = chars_of(positions[i].0.as_str());
        if chars_eq(&k, key) {
            return Some(i);
        }
        i = i + 1;
    }
    None
}

impl OpeningBook {
    /// Sets the moves of `key`, replacing what the book held for it.
    fn insert(&mut self, key: &Vec<char>, moves: Vec<(String, u32)>)
        requires
            old(self).wf(),
        ensures
            final(self).wf(),
            final(self).view() == old(self).view().insert(key@, moves_view(moves@)),
            final(self).rng == old(self).rng,
    {
        let ghost before = self.positions@;
        let ghost m0 = self.view();
        let ks = slice_chars(key, 0, key.len());
        proof {
            assert(ks@ =~= key@);
        }
        let entry = (string_from_chars(ks), moves);
        match index_of_key(&self.positions, key) {
            Some(i) => {
                self.positions.set(i, entry);
                proof {
                    let after = self.positions@;
                    assert forall|a: int, b: int| 0 <= a < b < after.len() implies #[trigger] after[a].0@ != #[trigger] after[b].0@ by {
                        if a != i && b != i {
                            assert(before[a].0@ != before[b].0@);
                        } else if a == i {
                            assert(before[a].0@ != before[b].0@);
                        } else {
                            assert(before[a].0@ != before[b].0@);
                        }
                    }
                    assert forall|k: Seq<char>| #[trigger] self.view().contains_key(k) <==> m0.insert(key@, moves_view(moves@)).contains_key(k) by {
                        if self.view().contains_key(k) {
                            let j = choose|j: int| 0 <= j < after.len() && #[trigger] after[j].0@ == k;
                            if j != i {
                                assert(before[j].0@ == k);
                            }
                        }
                        if m0.contains_key(k) && k != key@ {
                            let j = choose|j: int| 0 <= j < before.len() && #[trigger] before[j].0@ == k;
                            assert(after[j].0@ == k);
                        }
                        if k == key@ {
                            assert(after[i as int].0@ == k);
                        }
                    }
                    assert forall|k: Seq<char>| #[trigger] self.view().contains_key(k) implies self.view()[k] == m0.insert(key@, moves_view(moves@))[k] by {
                        let j = choose|j: int| 0 <= j < after.len() && #[trigger] after[j].0@ == k;
                        if k == key@ {
                            assert(after[i as int].0@ == k);
                            assert(j == i);
                        } else {
                            assert(j != i);
                            assert(before[j].0@ == k);
                            let j0 = choose|j0: int| 0 <= j0 < before.len() && #[trigger] before[j0].0@ == k;
                            assert(j0 == j);
                        }
                    }
                    assert(self.view() =~= m0.insert(key@, moves_view(moves@)));
                }
            },
            None => {
                self.positions.push(entry);
                proof {
                    let after = self.positions@;
                    let n = before.len() as int;
                    assert forall|a: int, b: int| 0 <= a < b < after.len() implies #[trigger] after[a].0@ != #[trigger] after[b].0@ by {
                        if b < n {
                            assert(before[a].0@ != before[b].0@);
                        }
                    }
                    assert forall|k: Seq<char>| #[trigger] self.view().contains_key(k) <==> m0.insert(key@, moves_view(moves@)).contains_key(k) by {
                        if self.view().contains_key(k) {
                            let j = choose|j: int| 0 <= j < after.len() && #[trigger] after[j].0@ == k;
                            if j != n {
                                assert(before[j].0@ == k);
                            }
                        }
                        if m0.contains_key(k) && k != key@ {
                            let j = choose|j: int| 0 <= j < before.len() && #[trigger] before[j].0@ == k;
                            assert(after[j].0@ == k);
                        }
                        if k == key@ {
                            assert(after[n].0@ == k);
                        }
                    }
                    assert forall|k: Seq<char>| #[trigger] self.view().contains_key(k) implies self.view()[k] == m0.insert(key@, moves_view(moves@))[k] by {
                        let j = choose|j: int| 0 <= j < after.len() && #[trigger] after[j].0@ == k;
                        if k == key@ {
                            assert(after[n].0@ == k);
                            assert(j == n);
                        } else {
                            assert(j != n);
                            assert(before[j].0@ == k);
                            let j0 = choose|j0: int| 0 <= j0 < before.len() && #[trigger] before[j0].0@ == k;
                            assert(j0 == j);
                        }
                    }
                    assert(self.view() =~= m0.insert(key@, moves_view(moves@)));
                }
            },
        }
    }

    /// The book moves of `key`, if the book holds it.
    pub fn lookup(&self, key: &str) -> (r: Option<&Vec<(String, u32)>>)
        requires
            self.wf(),
        ensures
            match r {
                Some(v) => self.view().contains_key(key@) && moves_view(v@) == self.view()[key@],
                None => !self.view().contains_key(key@),
            },
    {
        let k = chars_of(key);
        match index_of_key(&self.positions, &k) {
            Some(i) => {
                proof {
                    let ps = self.positions@;
                    assert(ps[i as int].0@ == key@);
                    let j = choose|j: int| 0 <= j < ps.len() && #[trigger] ps[j].0@ == key@;
                    if j != i {
                        if j < i {
                            assert(ps[j].0@ != ps[i as int].0@);
                        } else {
                            assert(ps[i as int].0@ != ps[j].0@);
                        }
                    }
                }
                Some(&self.positions[i].1)
            },
            None => None,
        }
    }
}

/// The lines of `s`.
fn lines_chars(s: &Vec<char>) -> (r: Vec<Vec<char>>)
    ensures
        r@.len() == lines(s@).len(),
        forall|i: int| 0 <= i < r@.len() ==> #[trigger] r@[i]@ == lines(s@)[i],
{
    let mut out: Vec<Vec<char>> = Vec::new();
    let ghost mut done: Seq<Seq<char>> = Seq::empty();
    let mut u = slice_chars(s, 0, s.len());
    proof {
        assert(u@ =~= s@);
    }
    let nl: Vec<char> = vec!['\n'];
    while u.len() > 0
        invariant
            nl@ == seq!['\n'],
            lines(s@) == done + lines(u@),
            out@.len() == done.len(),
            forall|i: int| 0 <= i < out@.len() ==> #[trigger] out@[i]@ == done[i],
        decreases u@.len(),
    {
        match find_chars(&u, &nl) {
            Some(i) => {
                proof {
                    lemma_find_from(u@, nl@, 0);
                }
                let line_end = if i > 0 && u[i - 1] == '\r' {
                    i - 1
                } else {
                    i
                };
                let line = slice_chars(&u, 0, line_end);
                proof {
                    assert(line@ =~= strip_cr(u@.take(i as int)));
                    assert(lines(u@) == seq![strip_cr(u@.take(i as int))] + lines(u@.skip(i + 1)));
                    assert(done.push(line@) + lines(u@.skip(i + 1)) =~= done + lines(u@));
                    done = done.push(line@);
                }
                out.push(line);
                let rest = slice_chars(&u, i + 1, u.len());
                proof {
                    assert(rest@ =~= u@.skip(i + 1));
                }
                u = rest;
            },
            None => {
                proof {
                    assert(lines(u@) == seq![u@]);
                    assert(lines(s@) =~= done.push(u@));
                    done = done.push(u@);
                }
                let line = slice_chars(&u, 0, u.len());
                proof {
                    assert(line@ =~= u@);
                }
                out.push(line);
                u = Vec::new();
                proof {
                    assert(lines(u@) =~= Seq::<Seq<char>>::empty());
                    assert(lines(s@) =~= done + lines(u@));
                }
            },
        }
    }
    proof {
        assert(lines(u@) =~= Seq::<Seq<char>>::empty());
        assert(lines(s@) =~= done);
    }
    out
}

/// The book moves of the lines `ls` from index `from` on.
fn moves_of_lines(ls: &Vec<Vec<char>>, from: usize) -> (r: Vec<(String, u32)>)
    requires
        from <= ls@.len(),
    ensures
        moves_view(r@) == entry_moves(Seq::new((ls@.len() - from) as nat, |i: int| ls@[from + i]@)),
{
    let ghost all = Seq::new((ls@.len() - from) as nat, |i: int| ls@[from + i]@);
    let mut out: Vec<(String, u32)> = Vec::new();
    let mut k: usize = from;
    proof {
        assert(all.skip(0) =~= all);
        assert(moves_view(out@) + entry_moves(all) =~= entry_moves(all));
    }
    while k < ls.len()
        invariant
            from <= k <= ls@.len(),
            all == Seq::new((ls@.len() - from) as nat, |i: int| ls@[from + i]@),
            entry_moves(all) == moves_view(out@) + entry_moves(all.skip(k - from)),
        decreases ls.len() - k,
    {
        let ghost tail = all.skip(k - from);
        proof {
            assert(tail[0] == ls@[k as int]@);
            assert(tail.drop_first() =~= all.skip(k - from + 1));
        }
        let f = split_fields(&ls[k]);
        if f.len() >= 2 {
            match parse_u32_chars(&f[1]) {
                Some(n) => {
                    let mv = slice_chars(&f[0], 0, f[0].len());
                    proof {
                        assert(mv@ =~= fields(tail[0])[0]);
                    }
                    let ghost before = out@;
                    out.push((string_from_chars(mv), n));
                    proof {
                        assert(moves_view(out@) =~= moves_view(before) + seq![(fields(tail[0])[0], n)]);
                    }
                },
                None => {},
            }
        }
        k = k + 1;
    }
    proof {
        assert(all.skip(k - from) =~= Seq::<Seq<char>>::empty());
    }
    out
}

/// The piece of text an entry holds, made into the book: its trimmed first
/// line and its moves, where it has both.
fn read_entry(book: &mut OpeningBook, piece: &Vec<char>)
    requires
        old(book).wf(),
    ensures
        final(book).wf(),
        final(book).rng == old(book).rng,
        final(book).view() == read_entries(old(book).view(), seq![piece@]),
{
    let ls = lines_chars(piece);
    proof {
        assert(seq![piece@].drop_first() =~= Seq::<Seq<char>>::empty());
    }
    if ls.len() == 0 {
        proof {
            assert(lines(piece@).len() == 0);
            assert(read_entries(old(book).view(), Seq::<Seq<char>>::empty()) == old(book).view());
        }
        return;
    }
    let key = trim_chars(&ls[0]);
    let moves = moves_of_lines(&ls, 1);
    let ghost lv = lines(piece@);
    let ghost m0 = book.view();
    proof {
        assert(Seq::new((ls@.len() - 1) as nat, |i: int| ls@[1 + i]@) =~= lv.drop_first());
        assert(key@ == trim(lv[0]));
        assert(moves_view(moves@) == entry_moves(lv.drop_first()));
        let next = if lv.len() > 0 && entry_moves(lv.drop_first()).len() > 0 {
            m0.insert(trim(lv[0]), entry_moves(lv.drop_first()))
        } else {
            m0
        };
        assert(read_entries(next, Seq::<Seq<char>>::empty()) == next);
        assert(read_entries(m0, seq![piece@]) == next);
    }
    if moves.len() > 0 {
        book.insert(&key, moves);
    }
}

/// Reading entries one by one: the first, then the rest.
proof fn lemma_read_entries_cons(m: Map<Seq<char>, Seq<(Seq<char>, u32)>>, es: Seq<Seq<char>>)
    requires
        es.len() > 0,
    ensures
        read_entries(m, es) == read_entries(read_entries(m, seq![es[0]]), es.drop_first()),
{
    let ls = lines(es[0]);
    let next = if ls.len() > 0 && entry_moves(ls.drop_first()).len() > 0 {
        m.insert(trim(ls[0]), entry_moves(ls.drop_first()))
    } else {
        m
    };
    assert(seq![es[0]].drop_first() =~= Seq::<Seq<char>>::empty());
    assert(seq![es[0]][0] == es[0]);
    assert(read_entries(next, Seq::<Seq<char>>::empty()) == next);
}

/// The opening book a text holds, its generator started at `seed`.
pub fn parse_book(data: &str, seed: u32) -> (r: OpeningBook)
    ensures
        r.wf(),
        r.view() == book_of(data@),
        r.rng.state == seed,
{
    let mut book = OpeningBook { positions: Vec::new(), rng: Rng::new(seed) };
    proof {
        assert(book.view() =~= Map::<Seq<char>, Seq<(Seq<char>, u32)>>::empty());
    }
    let raw = chars_of(data);
    let t = trim_chars(&raw);
    let pat: Vec<char> = vec!['p', 'o', 's', ' '];
    let tn = t.len();
    let first = find_chars(&t, &pat);
    let mut u = match first {
        Some(i) => {
            proof {
                lemma_find_from(t@, pat@, 0);
                assert(i + 4 <= tn);
                assert(split_pat(t@, pat@) == seq![t@.take(i as int)] + split_pat(t@.skip(i + 4), pat@));
                assert((seq![t@.take(i as int)] + split_pat(t@.skip(i + 4), pat@)).drop_first() =~= split_pat(
                    t@.skip(i + 4),
                    pat@,
                ));
            }
            let rest = slice_chars(&t, i + 4, t.len());
            proof {
                assert(rest@ =~= t@.skip(i + 4));
            }
            rest
        },
        None => {
            proof {
                assert(split_pat(t@, pat@) == seq![t@]);
                assert(seq![t@].drop_first() =~= Seq::<Seq<char>>::empty());
            }
            return book;
        },
    };
    loop
        invariant
            book.wf(),
            book.rng.state == seed,
            pat@ == seq!['p', 'o', 's', ' '],
            book_of(data@) == read_entries(book.view(), split_pat(u@, pat@)),
        decreases u@.len(),
    {
        let un = u.len();
        match find_chars(&u, &pat) {
            Some(i) => {
                proof {
                    lemma_find_from(u@, pat@, 0);
                    assert(i + 4 <= un);
                }
                let piece = slice_chars(&u, 0, i);
                let ghost m0 = book.view();
                proof {
                    assert(piece@ =~= u@.take(i as int));
                    let es = split_pat(u@, pat@);
                    assert(es == seq![u@.take(i as int)] + split_pat(u@.skip(i + 4), pat@));
                    assert(es.drop_first() =~= split_pat(u@.skip(i + 4), pat@));
                }
                read_entry(&mut book, &piece);
                proof {
                    let es = split_pat(u@, pat@);
                    lemma_read_entries_cons(m0, es);
                    assert(es[0] == piece@);
                    assert(read_entries(m0, es) == read_entries(book.view(), es.drop_first()));
                }
                let rest = slice_chars(&u, i + 4, u.len());
                proof {
                    assert(rest@ =~= u@.skip(i + 4));
                }
                u = rest;
            },
            None => {
                let ghost m0 = book.view();
                proof {
                    assert(split_pat(u@, pat@) == seq![u@]);
                }
                read_entry(&mut book, &u);
                proof {
                    lemma_read_entries_cons(m0, seq![u@]);
                    assert(seq![u@].drop_first() =~= Seq::<Seq<char>>::empty());
                    assert(read_entries(book.view(), Seq::<Seq<char>>::empty()) == book.view());
                }
                return book;
            },
        }
    }
}

/// The key a position's FEN is looked up under: the text before its fourth
/// space (all of it when it has fewer).
pub open spec fn book_key_spec(fen: Seq<char>) -> Seq<char>
    decreases fen.len(),
{
    key_upto(fen, 0, 0)
}

/// The text of `fen` from `i` on, up to the `4 - seen`-th space ahead.
pub open spec fn key_upto(fen: Seq<char>, i: int, seen: int) -> Seq<char>
    decreases fen.len() - i,
{
    if i < 0 || i >= fen.len() {
        Seq::empty()
    } else if fen[i] == ' ' {
        if seen + 1 >= 4 {
            Seq::empty()
        } else {
            seq![' '] + key_upto(fen, i + 1, seen + 1)
        }
    } else {
        seq![fen[i]] + key_upto(fen, i + 1, seen)
    }
}

/// The key a position's FEN is looked up under in the book: its first four
/// space-separated fields, joined by spaces.
pub fn book_key(fen: &str) -> (r: String)
    ensures
        r@ == book_key_spec(fen@),
{
    let f = chars_of(fen);
    let mut out: Vec<char> = Vec::new();
    let mut seen: usize = 0;
    let mut i: usize = 0;
    while i < f.len()
        invariant
            i <= f@.len(),
            seen < 4,
            f@ == fen@,
            book_key_spec(fen@) == out@ + key_upto(f@, i as int, seen as int),
        decreases f.len() - i,
    {
        let c = f[i];
        if c == ' ' {
            if seen + 1 >= 4 {
                proof {
                    assert(key_upto(f@, i as int, seen as int) == Seq::<char>::empty());
                    assert(out@ + Seq::<char>::empty() =~= out@);
                }
                return string_from_chars(out);
            }
            proof {
                assert(out@.push(' ') + key_upto(f@, i + 1, seen + 1) =~= out@ + key_upto(f@, i as int, seen as int));
            }
            out.push(' ');
            seen = seen + 1;
        } else {
            proof {
                assert(out@.push(c) + key_upto(f@, i + 1, seen as int) =~= out@ + key_upto(f@, i as int, seen as int));
            }
            out.push(c);
        }
        i = i + 1;
    }
    proof {
        assert(out@ + key_upto(f@, i as int, seen as int) =~= out@);
    }
    string_from_chars(out)
}

} // verus!
