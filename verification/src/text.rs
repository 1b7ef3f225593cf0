//! Splitting inserted text into lines, and UTF-8 facts about it.
use crate::laws::lines_text;
use crate::scan::{count_nl, nl_free, NEWLINE};
use vstd::prelude::*;
use vstd::string::StringSliceAdditionalSpecFns;
use vstd::utf8::{
    decode_utf8, encode_scalar, encode_utf8, is_char_boundary, length_of_first_scalar,
    pop_first_scalar, valid_utf8,
};

verus! {

broadcast use {
    vstd::utf8::encode_utf8_valid_utf8,
    vstd::utf8::encode_utf8_decode_utf8,
    vstd::utf8::is_char_boundary_start_end_of_seq,
};

/// The pieces of `b` between `\n` bytes: always one more than there are
/// newlines.
pub open spec fn split_nl(b: Seq<u8>) -> Seq<Seq<u8>>
    decreases b.len(),
{
    if b.len() == 0 {
        seq![Seq::<u8>::empty()]
    } else {
        let s = split_nl(b.drop_last());
        if b.last() == NEWLINE {
            s.push(Seq::<u8>::empty())
        } else {
            s.update(s.len() - 1, s.last().push(b.last()))
        }
    }
}

/// The lines of `b`: its pieces between newlines, without the empty piece
/// after a final newline.
pub open spec fn text_lines(b: Seq<u8>) -> Seq<Seq<u8>> {
    let s = split_nl(b);
    if s.last().len() == 0 {
        s.drop_last()
    } else {
        s
    }
}

/// The lines that an edit inserts for `text`, as characters.
pub open spec fn edit_lines(text: Seq<char>) -> Seq<Seq<char>> {
    text_lines(encode_utf8(text)).map_values(|l: Seq<u8>| decode_utf8(l))
}

/// No piece between newlines holds a newline.
pub proof fn lemma_split_nl_free(b: Seq<u8>)
    ensures
        forall|k: int| 0 <= k < split_nl(b).len() ==> #[trigger] nl_free(split_nl(b)[k]),
    decreases b.len(),
{
    if b.len() > 0 {
        let s = split_nl(b.drop_last());
        lemma_split_nl_free(b.drop_last());
        lemma_split_nl_len(b.drop_last());
        if b.last() != NEWLINE {
            assert(nl_free(s.last().push(b.last()))) by {
                assert(nl_free(s[s.len() - 1]));
            }
        }
    }
}

pub proof fn lemma_split_nl_len(b: Seq<u8>)
    ensures
        split_nl(b).len() >= 1,
    decreases b.len(),
{
    if b.len() > 0 {
        lemma_split_nl_len(b.drop_last());
    }
}

/// The lines, each followed by a `\n` byte, one after the other.
pub open spec fn lines_bytes(ls: Seq<Seq<u8>>) -> Seq<u8>
    decreases ls.len(),
{
    if ls.len() == 0 {
        seq![]
    } else {
        lines_bytes(ls.drop_last()) + ls.last() + seq![NEWLINE]
    }
}

/// The pieces with a `\n` byte between each two.
spec fn nl_join(s: Seq<Seq<u8>>) -> Seq<u8>
    decreases s.len(),
{
    if s.len() == 0 {
        seq![]
    } else if s.len() == 1 {
        s[0]
    } else {
        nl_join(s.drop_last()) + seq![NEWLINE] + s.last()
    }
}

/// Joining the pieces between newlines with newlines gives the bytes back;
/// there is one piece more than there are newlines, and the last is empty
/// exactly when the bytes are empty or end with a newline.
proof fn lemma_split_nl_join(b: Seq<u8>)
    ensures
        nl_join(split_nl(b)) == b,
        split_nl(b).len() == count_nl(b) + 1,
        split_nl(b).last().len() == 0 <==> (b.len() == 0 || b.last() == NEWLINE),
    decreases b.len(),
{
    if b.len() > 0 {
        let b0 = b.drop_last();
        let c = b.last();
        let s = split_nl(b0);
        lemma_split_nl_join(b0);
        lemma_split_nl_len(b0);
        assert(b0.push(c) =~= b);
        let t = split_nl(b);
        if c == NEWLINE {
            assert(t.drop_last() =~= s);
            assert(nl_join(t) =~= nl_join(s) + seq![NEWLINE] + Seq::<u8>::empty());
        } else {
            assert(t.last() =~= s.last().push(c));
            if s.len() == 1 {
                assert(nl_join(t) == t[0]);
            } else {
                assert(t.drop_last() =~= s.drop_last());
                assert(nl_join(t) =~= (nl_join(s.drop_last()) + seq![NEWLINE] + s.last()).push(c));
            }
        }
    }
}

proof fn lemma_lines_bytes_join(s: Seq<Seq<u8>>)
    requires
        s.len() >= 1,
    ensures
        lines_bytes(s) == nl_join(s) + seq![NEWLINE],
    decreases s.len(),
{
    if s.len() == 1 {
        assert(s.drop_last() =~= Seq::<Seq<u8>>::empty());
        assert(lines_bytes(s.drop_last()) =~= Seq::<u8>::empty());
        assert(s.last() == s[0]);
        assert(lines_bytes(s) =~= nl_join(s) + seq![NEWLINE]);
    } else {
        lemma_lines_bytes_join(s.drop_last());
        assert(lines_bytes(s) =~= nl_join(s) + seq![NEWLINE]);
    }
}

/// The lines an edit inserts for bytes `b` are exactly its pieces between
/// newlines: none holds a newline, and each followed by a newline they give
/// back `b`, with a newline added when `b` does not end with one. So there
/// are as many lines as newlines, one more when the last line has no
/// newline.
pub proof fn law_text_lines_rejoin(b: Seq<u8>)
    ensures
        forall|k: int| 0 <= k < text_lines(b).len() ==> #[trigger] nl_free(text_lines(b)[k]),
        lines_bytes(text_lines(b)) == if b.len() > 0 && b.last() != NEWLINE {
            b.push(NEWLINE)
        } else {
            b
        },
        text_lines(b).len() == count_nl(b) + if b.len() > 0 && b.last() != NEWLINE {
            1int
        } else {
            0int
        },
{
    let s = split_nl(b);
    lemma_split_nl_join(b);
    lemma_split_nl_len(b);
    lemma_split_nl_free(b);
    assert forall|k: int| 0 <= k < text_lines(b).len() implies #[trigger] nl_free(text_lines(b)[k]) by {
        assert(text_lines(b)[k] == s[k]);
    }
    if s.last().len() == 0 {
        if s.len() == 1 {
            assert(b == s[0]);
            assert(s.drop_last() =~= Seq::<Seq<u8>>::empty());
        } else {
            lemma_lines_bytes_join(s.drop_last());
            assert(nl_join(s) =~= nl_join(s.drop_last()) + seq![NEWLINE]);
        }
    } else {
        lemma_lines_bytes_join(s);
        assert(b.push(NEWLINE) =~= b + seq![NEWLINE]);
    }
}

/// The UTF-8 bytes of lines joined as text are their bytes joined.
proof fn lemma_encode_lines_text(cs: Seq<Seq<char>>)
    ensures
        encode_utf8(lines_text(cs)) == lines_bytes(cs.map_values(|c: Seq<char>| encode_utf8(c))),
    decreases cs.len(),
{
    if cs.len() > 0 {
        let d = cs.drop_last();
        lemma_encode_lines_text(d);
        assert(cs.map_values(|c: Seq<char>| encode_utf8(c)).drop_last() =~= d.map_values(
            |c: Seq<char>| encode_utf8(c),
        ));
        lemma_encode_concat(lines_text(d) + cs.last(), seq!['\n']);
        lemma_encode_concat(lines_text(d), cs.last());
        lemma_encode_nl();
    } else {
        assert(encode_utf8(Seq::<char>::empty()) =~= Seq::<u8>::empty());
    }
}

proof fn lemma_encode_nl()
    ensures
        encode_utf8(seq!['\n']) == seq![NEWLINE],
{
    let s = seq!['\n'];
    assert(vstd::utf8::is_ascii_chars(s));
    vstd::utf8::is_ascii_chars_encode_utf8(s);
    assert(encode_utf8(s) =~= seq![NEWLINE]);
}

/// The byte after a `\n` of a valid UTF-8 sequence starts a character.
proof fn lemma_after_newline_boundary(t: Seq<u8>)
    requires
        valid_utf8(t),
        t.len() >= 1,
        t[0] == NEWLINE,
    ensures
        is_char_boundary(t, 1),
{
    assert(length_of_first_scalar(t) == 1);
    vstd::utf8::is_char_boundary_start_end_of_seq(pop_first_scalar(t));
    reveal_with_fuel(is_char_boundary, 2);
}

/// Splits `text` into the lines an edit inserts: the pieces between `\n`,
/// without the empty piece after a final `\n`.
pub fn split_lines(text: &str) -> (r: Vec<String>)
    ensures
        r@.len() == edit_lines(text@).len(),
        forall|k: int| 0 <= k < r@.len() ==> #[trigger] r@[k]@ == edit_lines(text@)[k],
        forall|k: int| 0 <= k < r@.len() ==> #[trigger] nl_free(encode_utf8(r@[k]@)),
        forall|k: int| 0 <= k < r@.len() ==> #[trigger] encode_utf8(r@[k]@) == text_lines(encode_utf8(text@))[k],
        lines_text(r@.map_values(|s: String| s@)) == if lacks_final_newline(text@) {
            text@ + seq!['\n']
        } else {
            text@
        },
{
    let bytes = text.as_bytes();
    let ghost b = bytes@;
    let mut lines: Vec<String> = Vec::new();
    let mut rest: &str = text;
    let mut start: usize = 0;
    let mut i: usize = 0;
    proof {
        assert(b.subrange(0, 0) =~= Seq::<u8>::empty());
        assert(b.subrange(0, b.len() as int) =~= b);
    }
    while i < bytes.len()
        invariant
            b == bytes@,
            b == encode_utf8(text@),
            start <= i <= b.len(),
            rest.spec_bytes() == b.subrange(start as int, b.len() as int),
            split_nl(b.subrange(0, i as int)) == lines@.map_values(|s: String| encode_utf8(s@)).push(
                b.subrange(start as int, i as int),
            ),
        decreases b.len() - i,
    {
        let ghost prev = b.subrange(0, i as int);
        let ghost next = b.subrange(0, i + 1);
        proof {
            assert(next.drop_last() =~= prev);
            assert(next.last() == b[i as int]);
        }
        if bytes[i] == NEWLINE {
            let cut = i - start;
            proof {
                let rb = rest.spec_bytes();
                assert(rb[cut as int] == b[i as int]);
                vstd::utf8::is_char_boundary_iff_not_is_continuation_byte(rb, cut as int);
            }
            let (line, tail) = rest.split_at(cut);
            proof {
                let tb = tail.spec_bytes();
                assert(tb[0] == NEWLINE);
                lemma_after_newline_boundary(tb);
            }
            let (_nl, tail2) = tail.split_at(1);
            let owned = line.to_owned();
            let ghost lines0 = lines@;
            lines.push(owned);
            proof {
                assert(encode_utf8(owned@) == line.spec_bytes());
                assert(line.spec_bytes() =~= b.subrange(start as int, i as int));
                assert(lines@.map_values(|s: String| encode_utf8(s@)) =~= lines0.map_values(
                    |s: String| encode_utf8(s@),
                ).push(b.subrange(start as int, i as int)));
                assert(tail2.spec_bytes() =~= b.subrange(i + 1, b.len() as int));
                assert(b.subrange(i + 1, i + 1) =~= Seq::<u8>::empty());
            }
            rest = tail2;
            start = i + 1;
        } else {
            proof {
                let s = split_nl(prev);
                lemma_split_nl_len(prev);
                assert(b.subrange(start as int, i + 1) =~= b.subrange(start as int, i as int).push(
                    b[i as int],
                ));
            }
        }
        i = i + 1;
    }
    proof {
        assert(b.subrange(0, b.len() as int) =~= b);
    }
    let ghost lines0 = lines@;
    if start < bytes.len() {
        let owned = rest.to_owned();
        lines.push(owned);
        proof {
            assert(encode_utf8(owned@) == rest.spec_bytes());
        }
    }
    proof {
        let enc = lines0.map_values(|s: String| encode_utf8(s@));
        let last = b.subrange(start as int, b.len() as int);
        assert(split_nl(b) == enc.push(last));
        assert(split_nl(b).last() == last);
        if start < b.len() {
            assert(text_lines(b) == enc.push(last));
        } else {
            assert(text_lines(b) =~= enc);
        }
        assert(text_lines(b).len() == lines@.len());
        assert forall|k: int| 0 <= k < lines@.len() implies #[trigger] lines@[k]@ == edit_lines(
            text@,
        )[k] by {
            assert(encode_utf8(lines@[k]@) == text_lines(b)[k]);
            assert(decode_utf8(encode_utf8(lines@[k]@)) == lines@[k]@);
        }
        lemma_split_nl_free(b);
        assert forall|k: int| 0 <= k < lines@.len() implies #[trigger] nl_free(encode_utf8(lines@[k]@)) by {
            assert(encode_utf8(lines@[k]@) == text_lines(b)[k]);
            assert(text_lines(b)[k] == split_nl(b)[k]);
        }
        let cs = lines@.map_values(|s: String| s@);
        let es = cs.map_values(|c: Seq<char>| encode_utf8(c));
        assert(es =~= text_lines(b)) by {
            assert forall|k: int| 0 <= k < lines@.len() implies #[trigger] es[k] == text_lines(b)[k] by {
                assert(encode_utf8(lines@[k]@) == text_lines(b)[k]);
            }
        }
        lemma_encode_lines_text(cs);
        law_text_lines_rejoin(b);
        lemma_encode_last(text@);
        if lacks_final_newline(text@) {
            lemma_encode_concat(text@, seq!['\n']);
            lemma_encode_nl();
            assert(b.push(NEWLINE) =~= b + seq![NEWLINE]);
            assert(decode_utf8(encode_utf8(lines_text(cs))) == lines_text(cs));
            assert(decode_utf8(encode_utf8(text@ + seq!['\n'])) == text@ + seq!['\n']);
        } else {
            assert(decode_utf8(encode_utf8(lines_text(cs))) == lines_text(cs));
            assert(decode_utf8(encode_utf8(text@)) == text@);
        }
    }
    lines
}


/// UTF-8 encoding distributes over concatenation.
pub proof fn lemma_encode_concat(a: Seq<char>, b: Seq<char>)
    ensures
        encode_utf8(a + b) == encode_utf8(a) + encode_utf8(b),
    decreases a.len(),
{
    if a.len() == 0 {
        assert(a + b =~= b);
        assert(encode_utf8(a) =~= Seq::<u8>::empty());
        assert(encode_utf8(a) + encode_utf8(b) =~= encode_utf8(b));
    } else {
        lemma_encode_concat(a.drop_first(), b);
        assert((a + b).drop_first() =~= a.drop_first() + b);
        assert((a + b)[0] == a[0]);
        assert(encode_utf8(a + b) =~= encode_utf8(a) + encode_utf8(b));
    }
}

/// The encoding of a character ends with byte `\n` exactly when the
/// character is `\n`.
proof fn lemma_scalar_last_newline(v: u32)
    requires
        vstd::utf8::is_scalar(v),
    ensures
        encode_scalar(v).len() > 0,
        encode_scalar(v).last() == NEWLINE <==> v == 10,
{
    if vstd::utf8::has_width_1_encoding(v) {
        assert((v & 0x7F) == v) by (bit_vector)
            requires
                v <= 0x7F,
        ;
        assert(((v & 0x7F) as u8 == 10u8) <==> v == 10) by (bit_vector)
            requires
                v <= 0x7F,
        ;
    } else {
        assert((0x80u8 | (v & 0x3F) as u8) != 10u8) by (bit_vector);
        assert(encode_scalar(v).last() == (0x80u8 | (v & 0x3F) as u8));
    }
}

/// A char sequence is empty, or ends with `\n`, exactly when its encoding is
/// empty, or ends with byte `\n`.
pub proof fn lemma_encode_last(s: Seq<char>)
    ensures
        encode_utf8(s).len() > 0 <==> s.len() > 0,
        s.len() > 0 ==> (encode_utf8(s).last() == NEWLINE <==> s.last() == '\n'),
{
    if s.len() == 0 {
        assert(encode_utf8(s) =~= Seq::<u8>::empty());
    } else {
        let c = s.last();
        lemma_encode_concat(s.drop_last(), seq![c]);
        assert(s.drop_last() + seq![c] =~= s);
        assert(seq![c].drop_first() =~= Seq::<char>::empty());
        assert(encode_utf8(Seq::<char>::empty()) =~= Seq::<u8>::empty());
        vstd::utf8::char_is_scalar(c);
        assert(encode_utf8(seq![c]) =~= encode_scalar(c as u32));
        lemma_scalar_last_newline(c as u32);
        assert(('\n' as u32) == 10);
        vstd::utf8::char_u32_cast('\n', 10u32);
        vstd::utf8::char_u32_cast(c, c as u32);
        assert((c as u32 == 10) <==> c == '\n');
    }
}

/// `s` is not empty and its last character is not `\n`.
pub open spec fn lacks_final_newline(s: Seq<char>) -> bool {
    s.len() > 0 && s.last() != '\n'
}

/// Whether `s` is not empty and does not end with `\n`.
pub fn lacks_newline_at_end(s: &String) -> (r: bool)
    ensures
        r == lacks_final_newline(s@),
{
    let b = s.as_str().as_bytes();
    proof {
        lemma_encode_last(s@);
    }
    b.len() > 0 && b[b.len() - 1] != NEWLINE
}

} // verus!
