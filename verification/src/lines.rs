//! Text that is made of lines.

use vstd::prelude::*;

verus! {

/// The length of the first line of a text.
pub open spec fn line_len(text: Seq<u8>) -> nat
    decreases text.len(),
{
    if text.len() == 0 || text[0] == 0x0a {
        0
    } else {
        1 + line_len(text.skip(1))
    }
}

/// What follows the first line and the line feed that ends it.
pub open spec fn next_lines(text: Seq<u8>) -> Seq<u8> {
    if line_len(text) < text.len() {
        text.skip(line_len(text) as int + 1)
    } else {
        Seq::empty()
    }
}

/// The lines of a text, without the line feeds that end them. The last line need not be ended.
pub open spec fn lines(text: Seq<u8>) -> Seq<Seq<u8>>
    decreases text.len(),
{
    if text.len() == 0 {
        Seq::empty()
    } else {
        seq![text.take(line_len(text) as int)] + lines(next_lines(text))
    }
}

pub(crate) proof fn lemma_line_len(text: Seq<u8>)
    ensures
        line_len(text) <= text.len(),
        forall|i: int| 0 <= i < line_len(text) ==> text[i] != 0x0a,
        line_len(text) < text.len() ==> text[line_len(text) as int] == 0x0a,
    decreases text.len(),
{
    if text.len() > 0 && text[0] != 0x0a {
        lemma_line_len(text.skip(1));
        assert forall|i: int| 0 <= i < line_len(text) implies text[i] != 0x0a by {
            if i > 0 {
                assert(text[i] == text.skip(1)[i - 1]);
            }
        }
    }
}

/// No line is longer than the text.
pub proof fn law_line_len(text: Seq<u8>, i: int)
    requires
        0 <= i < lines(text).len(),
    ensures
        lines(text)[i].len() <= text.len(),
    decreases text.len(),
{
    lemma_line_len(text);
    if i > 0 {
        law_line_len(next_lines(text), i - 1);
    }
}

/// Texts without line feeds, each ended by one, are the lines of what they make together.
pub proof fn law_joined(texts: Seq<Seq<u8>>)
    requires
        forall|i: int| 0 <= i < texts.len() ==> !(#[trigger] texts[i]).contains(0x0a),
    ensures
        lines(texts.map_values(|t: Seq<u8>| t.push(0x0a)).flatten()) == texts,
    decreases texts.len(),
{
    let ended = texts.map_values(|t: Seq<u8>| t.push(0x0a));
    if texts.len() > 0 {
        let rest = texts.drop_first();
        assert(ended.drop_first() =~= rest.map_values(|t: Seq<u8>| t.push(0x0a)));
        assert forall|i: int| 0 <= i < rest.len() implies !(#[trigger] rest[i]).contains(
            0x0a,
        ) by {
            assert(rest[i] == texts[i + 1]);
        }
        law_joined(rest);
        let first = texts[0];
        let text = ended.flatten();
        let others = ended.drop_first().flatten();
        assert(text =~= first.push(0x0a) + others);
        lemma_line_len(text);
        let k = line_len(text) as int;
        assert(text[first.len() as int] == 0x0a);
        if k < first.len() {
            assert(text[k] == first[k]);
            assert(first.contains(first[k]));
        }
        assert(k == first.len());
        assert(text.take(k) =~= first);
        assert(next_lines(text) =~= others);
        assert(lines(text) =~= seq![first] + rest);
        assert(texts =~= seq![first] + rest);
    }
}

/// Every text that is empty or ends with a line feed is made of its lines, each ended by a line
/// feed, and no line holds one.
pub proof fn law_joined_lines(text: Seq<u8>)
    requires
        text.len() > 0 ==> text.last() == 0x0a,
    ensures
        lines(text).map_values(|t: Seq<u8>| t.push(0x0a)).flatten() == text,
        forall|i: int| 0 <= i < lines(text).len() ==> !(#[trigger] lines(text)[i]).contains(0x0a),
    decreases text.len(),
{
    if text.len() > 0 {
        lemma_line_len(text);
        let k = line_len(text) as int;
        assert(k < text.len());
        let first = text.take(k);
        let others = text.skip(k + 1);
        assert(others.len() > 0 ==> others.last() == text.last());
        law_joined_lines(others);
        let all = lines(text);
        assert(all =~= seq![first] + lines(others));
        let ended = all.map_values(|t: Seq<u8>| t.push(0x0a));
        assert(ended.drop_first() =~= lines(others).map_values(|t: Seq<u8>| t.push(0x0a)));
        assert(ended.first() =~= first.push(0x0a));
        assert(text =~= first.push(0x0a) + others);
        assert forall|i: int| 0 <= i < all.len() implies !(#[trigger] all[i]).contains(0x0a) by {
            if i == 0 {
                assert(all[0] == first);
            } else {
                assert(all[i] == lines(others)[i - 1]);
            }
        }
    } else {
        assert(lines(text).map_values(|t: Seq<u8>| t.push(0x0a)) =~= Seq::empty());
        assert(text =~= Seq::empty());
    }
}

/// To end the last line adds no line.
pub proof fn law_final_line_feed(text: Seq<u8>)
    requires
        text.len() > 0,
        text.last() != 0x0a,
    ensures
        lines(text.push(0x0a)) == lines(text),
    decreases text.len(),
{
    let longer = text.push(0x0a);
    lemma_line_len(text);
    lemma_line_len_push(text);
    let k = line_len(text) as int;
    assert(longer.take(k) =~= text.take(k));
    if k < text.len() {
        let rest = text.skip(k + 1);
        assert(text[k] == 0x0a);
        assert(k + 1 < text.len());
        assert(rest.last() == text.last());
        assert(longer.skip(k + 1) =~= rest.push(0x0a));
        law_final_line_feed(rest);
    } else {
        assert(longer.skip(k + 1) =~= Seq::<u8>::empty());
    }
}

proof fn lemma_line_len_push(text: Seq<u8>)
    ensures
        line_len(text.push(0x0a)) == line_len(text),
    decreases text.len(),
{
    let longer = text.push(0x0a);
    if text.len() > 0 {
        assert(longer[0] == text[0]);
        assert(longer.skip(1) =~= text.skip(1).push(0x0a));
        lemma_line_len_push(text.skip(1));
    }
}

/// The place where the line that begins at `start` ends.
pub(crate) fn line_end(text: &[u8], start: usize) -> (r: usize)
    requires
        start <= text@.len(),
    ensures
        start <= r <= text@.len(),
        r - start == line_len(text@.skip(start as int)),
        r < text@.len() ==> text@[r as int] == 0x0a,
{
    let mut end: usize = start;
    let ghost rest = text@.skip(start as int);
    proof {
        lemma_line_len(rest);
    }
    while end < text.len() && text[end] != 0x0a
        invariant
            start <= end <= text@.len(),
            rest == text@.skip(start as int),
            end - start <= line_len(rest),
            line_len(rest) <= rest.len(),
            line_len(rest) < rest.len() ==> rest[line_len(rest) as int] == 0x0a,
        decreases text@.len() - end,
    {
        assert(text@[end as int] == rest[end - start]);
        end = end + 1;
    }
    assert(end < text@.len() ==> text@[end as int] == rest[end - start]);
    end
}

} // verus!
