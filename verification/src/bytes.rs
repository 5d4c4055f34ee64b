//! Splitting byte buffers into lines and fields.
use vstd::prelude::*;
use vstd::utf8::*;

verus! {

/// The index of the first byte of `data` that is `a` or `b`, or the length where there is none.
pub open spec fn find_either(data: Seq<u8>, a: u8, b: u8) -> int
    decreases data.len(),
{
    if data.len() == 0 || data[0] == a || data[0] == b {
        0
    } else {
        1 + find_either(data.skip(1), a, b)
    }
}

/// The contents of a list of slices.
pub open spec fn contents(parts: Seq<&[u8]>) -> Seq<Seq<u8>> {
    Seq::new(parts.len(), |i: int| parts[i]@)
}

pub proof fn lemma_find_either(data: Seq<u8>, a: u8, b: u8)
    ensures
        0 <= find_either(data, a, b) <= data.len(),
        forall|i: int| 0 <= i < find_either(data, a, b) ==> data[i] != a && data[i] != b,
        find_either(data, a, b) < data.len() ==> data[find_either(data, a, b)] == a
            || data[find_either(data, a, b)] == b,
    decreases data.len(),
{
    if data.len() == 0 || data[0] == a || data[0] == b {
    } else {
        lemma_find_either(data.skip(1), a, b);
        assert forall|i: int| 0 <= i < find_either(data, a, b) implies data[i] != a && data[i]
            != b by {
            if i > 0 {
                assert(data[i] == data.skip(1)[i - 1]);
            }
        }
    }
}

/// An index is the first occurrence exactly where nothing before it matches and it does.
pub proof fn lemma_find_either_is(data: Seq<u8>, a: u8, b: u8, at: int)
    requires
        0 <= at <= data.len(),
        forall|i: int| 0 <= i < at ==> data[i] != a && data[i] != b,
        at < data.len() ==> data[at] == a || data[at] == b,
    ensures
        find_either(data, a, b) == at,
{
    lemma_find_either(data, a, b);
    let n = find_either(data, a, b);
    if n < at {
        assert(data[n] != a && data[n] != b);
    }
    if at < n {
        assert(data[at] != a && data[at] != b);
    }
}

/// Where the first byte equal to `a` or `b` stands at or after `from`.
pub fn position_either(data: &[u8], from: usize, a: u8, b: u8) -> (at: usize)
    requires
        from <= data@.len(),
    ensures
        from <= at <= data@.len(),
        at - from == find_either(data@.skip(from as int), a, b),
{
    let mut at: usize = from;
    while at < data.len() && data[at] != a && data[at] != b
        invariant
            from <= at <= data@.len(),
            forall|i: int| from <= i < at ==> data@[i] != a && data@[i] != b,
        decreases data@.len() - at,
    {
        at = at + 1;
    }
    proof {
        let rest = data@.skip(from as int);
        assert forall|i: int| 0 <= i < at - from implies rest[i] != a && rest[i] != b by {
            assert(rest[i] == data@[i + from]);
        }
        lemma_find_either_is(rest, a, b, at - from);
    }
    at
}

/// The lines of a buffer: what stands between line feeds. A line feed at the very end
/// starts no further line.
pub open spec fn lines(data: Seq<u8>) -> Seq<Seq<u8>>
    decreases data.len(),
{
    if data.len() == 0 {
        Seq::empty()
    } else {
        let n = find_either(data, 10, 10);
        if 0 <= n < data.len() {
            seq![data.take(n)] + lines(data.skip(n + 1))
        } else {
            seq![data]
        }
    }
}

/// Splits a buffer into its lines.
pub fn split_lines<'a>(data: &'a [u8]) -> (res: Vec<&'a [u8]>)
    ensures
        contents(res@) == lines(data@),
{
    let mut res: Vec<&'a [u8]> = Vec::new();
    let mut pos: usize = 0;
    proof {
        assert(data@.skip(0) =~= data@);
        assert(contents(res@) =~= Seq::<Seq<u8>>::empty());
        assert(Seq::<Seq<u8>>::empty() + lines(data@) =~= lines(data@));
    }
    while pos < data.len()
        invariant
            0 <= pos <= data@.len(),
            contents(res@) + lines(data@.skip(pos as int)) == lines(data@),
        decreases data@.len() - pos,
    {
        let end: usize = position_either(data, pos, 10, 10);
        let line: &'a [u8] = vstd::slice::slice_subrange(data, pos, end);
        let ghost before = contents(res@);
        res.push(line);
        proof {
            let rest = data@.skip(pos as int);
            let n = find_either(rest, 10, 10);
            lemma_find_either(rest, 10, 10);
            assert(contents(res@) =~= before.push(line@));
            if n < rest.len() {
                assert(line@ =~= rest.take(n));
                assert(rest.skip(n + 1) =~= data@.skip(end + 1));
                assert(before + (seq![rest.take(n)] + lines(rest.skip(n + 1)))
                    =~= contents(res@) + lines(data@.skip(end + 1)));
            } else {
                assert(line@ =~= rest);
                assert(before + seq![rest] =~= contents(res@));
            }
        }
        if end < data.len() {
            pos = end + 1;
        } else {
            pos = end;
            proof {
                assert(data@.skip(end as int) =~= Seq::<u8>::empty());
                assert(contents(res@) + Seq::<Seq<u8>>::empty() =~= contents(res@));
            }
        }
    }
    proof {
        assert(data@.skip(pos as int) =~= Seq::<u8>::empty());
        assert(contents(res@) + Seq::<Seq<u8>>::empty() =~= contents(res@));
    }
    res
}

/// The fields of a line: the non-empty runs between bytes equal to `a` or `b`.
pub open spec fn fields_by(data: Seq<u8>, a: u8, b: u8) -> Seq<Seq<u8>>
    decreases data.len(),
{
    if data.len() == 0 {
        Seq::empty()
    } else {
        let n = find_either(data, a, b);
        if n == 0 {
            fields_by(data.skip(1), a, b)
        } else if 0 < n < data.len() {
            seq![data.take(n)] + fields_by(data.skip(n + 1), a, b)
        } else {
            seq![data]
        }
    }
}

/// The fields of a line, between spaces.
pub open spec fn fields(data: Seq<u8>) -> Seq<Seq<u8>> {
    fields_by(data, 32, 32)
}

/// Splits a line into its fields.
pub fn split_fields_by<'a>(data: &'a [u8], a: u8, b: u8) -> (res: Vec<&'a [u8]>)
    ensures
        contents(res@) == fields_by(data@, a, b),
{
    let mut res: Vec<&'a [u8]> = Vec::new();
    let mut pos: usize = 0;
    proof {
        assert(data@.skip(0) =~= data@);
        assert(contents(res@) + fields_by(data@, a, b) =~= fields_by(data@, a, b));
    }
    while pos < data.len()
        invariant
            0 <= pos <= data@.len(),
            contents(res@) + fields_by(data@.skip(pos as int), a, b) == fields_by(data@, a, b),
        decreases data@.len() - pos,
    {
        let end: usize = position_either(data, pos, a, b);
        let ghost rest = data@.skip(pos as int);
        let ghost n = end - pos;
        let ghost before = contents(res@);
        if end > pos {
            let field: &'a [u8] = vstd::slice::slice_subrange(data, pos, end);
            res.push(field);
            proof {
                assert(contents(res@) =~= before.push(field@));
                if n < rest.len() {
                    assert(field@ =~= rest.take(n));
                    assert(before + (seq![rest.take(n)] + fields_by(rest.skip(n + 1), a, b))
                        =~= contents(res@) + fields_by(rest.skip(n + 1), a, b));
                } else {
                    assert(field@ =~= rest);
                    assert(before + seq![rest] =~= contents(res@) + Seq::<Seq<u8>>::empty());
                }
            }
        }
        proof {
            if n < rest.len() {
                assert(rest.skip(n + 1) =~= data@.skip(end + 1));
            } else {
                assert(data@.skip(end as int) =~= Seq::<u8>::empty());
            }
        }
        if end < data.len() {
            pos = end + 1;
        } else {
            pos = end;
        }
    }
    proof {
        assert(data@.skip(pos as int) =~= Seq::<u8>::empty());
        assert(contents(res@) + Seq::<Seq<u8>>::empty() =~= contents(res@));
    }
    res
}

/// Splits a line into its fields, between spaces.
pub fn split_fields<'a>(data: &'a [u8]) -> (res: Vec<&'a [u8]>)
    ensures
        contents(res@) == fields(data@),
{
    split_fields_by(data, 32, 32)
}

/// The pieces of a line between single bytes equal to `sep`, empty pieces included.
pub open spec fn pieces(data: Seq<u8>, sep: u8) -> Seq<Seq<u8>>
    decreases data.len(),
{
    let n = find_either(data, sep, sep);
    if 0 <= n < data.len() {
        seq![data.take(n)] + pieces(data.skip(n + 1), sep)
    } else {
        seq![data]
    }
}

/// Splits a line at every byte equal to `sep`.
pub fn split_pieces<'a>(data: &'a [u8], sep: u8) -> (res: Vec<&'a [u8]>)
    ensures
        contents(res@) == pieces(data@, sep),
{
    let mut res: Vec<&'a [u8]> = Vec::new();
    let mut pos: usize = 0;
    let mut end: usize = position_either(data, 0, sep, sep);
    proof {
        assert(data@.skip(0) =~= data@);
        assert(contents(res@) + pieces(data@, sep) =~= pieces(data@, sep));
    }
    while end < data.len()
        invariant
            0 <= pos <= end <= data@.len(),
            end - pos == find_either(data@.skip(pos as int), sep, sep),
            contents(res@) + pieces(data@.skip(pos as int), sep) == pieces(data@, sep),
        decreases data@.len() - pos,
    {
        let piece: &'a [u8] = vstd::slice::slice_subrange(data, pos, end);
        let ghost before = contents(res@);
        let ghost rest = data@.skip(pos as int);
        res.push(piece);
        proof {
            let n = end - pos;
            assert(contents(res@) =~= before.push(piece@));
            assert(piece@ =~= rest.take(n));
            assert(rest.skip(n + 1) =~= data@.skip(end + 1));
            assert(before + (seq![rest.take(n)] + pieces(rest.skip(n + 1), sep)) =~= contents(res@)
                + pieces(rest.skip(n + 1), sep));
        }
        pos = end + 1;
        end = position_either(data, pos, sep, sep);
    }
    let piece: &'a [u8] = vstd::slice::slice_subrange(data, pos, end);
    let ghost before = contents(res@);
    res.push(piece);
    proof {
        assert(piece@ =~= data@.skip(pos as int));
        assert(contents(res@) =~= before + seq![data@.skip(pos as int)]);
    }
    res
}

/// Whether two byte slices hold the same bytes.
pub fn same_bytes(a: &[u8], b: &[u8]) -> (res: bool)
    ensures
        res == (a@ == b@),
{
    if a.len() != b.len() {
        return false;
    }
    let mut i: usize = 0;
    while i < a.len()
        invariant
            0 <= i <= a@.len(),
            a@.len() == b@.len(),
            forall|j: int| 0 <= j < i ==> a@[j] == b@[j],
        decreases a@.len() - i,
    {
        if a[i] != b[i] {
            return false;
        }
        i = i + 1;
    }
    assert(a@ =~= b@);
    true
}

/// Whether bytes are the encoding of a word.
pub fn bytes_are(data: &[u8], word: &str) -> (res: bool)
    ensures
        res == (data@ == encode_utf8(word@)),
{
    same_bytes(data, word.as_bytes())
}

/// Whether bytes begin with the encoding of a word.
pub open spec fn begins_with(data: Seq<u8>, word: Seq<char>) -> bool {
    encode_utf8(word).is_prefix_of(data)
}

/// Whether bytes begin with a word.
pub fn starts_with(data: &[u8], word: &str) -> (res: bool)
    ensures
        res == begins_with(data@, word@),
{
    let w: &[u8] = word.as_bytes();
    if data.len() < w.len() {
        return false;
    }
    let mut i: usize = 0;
    while i < w.len()
        invariant
            0 <= i <= w@.len() <= data@.len(),
            w@ == encode_utf8(word@),
            forall|j: int| 0 <= j < i ==> w@[j] == data@[j],
        decreases w@.len() - i,
    {
        if w[i] != data[i] {
            assert(w@[i as int] != data@.subrange(0, w@.len() as int)[i as int]);
            return false;
        }
        i = i + 1;
    }
    assert(w@ =~= data@.subrange(0, w@.len() as int));
    true
}

} // verus!
