//! The deployment transform of the generated interface header: the directive
//! that includes the hand-written interface is taken out wherever it stands
//! and put back behind the line that closes the runtime namespace.

use vstd::prelude::*;
use vstd::slice::slice_to_vec;
use vstd::string::*;

verus! {

/// The byte that ends a line.
pub const NEWLINE: u8 = 10;

/// `pat` stands in `text` at index `i`.
pub open spec fn occurs_at(text: Seq<u8>, pat: Seq<u8>, i: int) -> bool {
    &&& 0 <= i
    &&& i + pat.len() <= text.len()
    &&& text.subrange(i, i + pat.len()) == pat
}

/// `i` is the first index from `from` on at which `pat` stands in `text`.
pub open spec fn is_first_from(text: Seq<u8>, pat: Seq<u8>, from: int, i: int) -> bool {
    &&& from <= i
    &&& occurs_at(text, pat, i)
    &&& forall|j: int| from <= j < i ==> !occurs_at(text, pat, j)
}

/// The first index from `from` on at which `pat` stands in `text`, if there
/// is one.
pub open spec fn first_from(text: Seq<u8>, pat: Seq<u8>, from: int) -> Option<int> {
    if exists|i: int| is_first_from(text, pat, from, i) {
        Some(choose|i: int| is_first_from(text, pat, from, i))
    } else {
        None
    }
}

/// A first occurrence is the only one: it is what `first_from` gives.
pub proof fn lemma_first_from_unique(text: Seq<u8>, pat: Seq<u8>, from: int, i: int)
    requires
        is_first_from(text, pat, from, i),
    ensures
        first_from(text, pat, from) == Some(i),
{
    let k = choose|k: int| is_first_from(text, pat, from, k);
    assert(is_first_from(text, pat, from, k));
    if k < i {
        assert(!occurs_at(text, pat, k));
    } else if i < k {
        assert(!occurs_at(text, pat, i));
    }
}

/// Where `pat` stands somewhere from `from` on, it stands somewhere first, and
/// not behind that place.
pub proof fn lemma_first_from_exists(text: Seq<u8>, pat: Seq<u8>, from: int, i: int)
    requires
        from <= i,
        occurs_at(text, pat, i),
    ensures
        first_from(text, pat, from) is Some,
        is_first_from(text, pat, from, first_from(text, pat, from).unwrap()),
        first_from(text, pat, from).unwrap() <= i,
    decreases i - from,
{
    if exists|j: int| from <= j < i && occurs_at(text, pat, j) {
        let j = choose|j: int| from <= j < i && occurs_at(text, pat, j);
        lemma_first_from_exists(text, pat, from, j);
    } else {
        assert(is_first_from(text, pat, from, i));
        lemma_first_from_unique(text, pat, from, i);
    }
}

/// Whether `pat` stands in `text` at `i`.
fn matches_at(text: &[u8], pat: &[u8], i: usize) -> (r: bool)
    requires
        i + pat@.len() <= text@.len(),
    ensures
        r == occurs_at(text@, pat@, i as int),
{
    let n: usize = text.len();
    let mut k: usize = 0;
    while k < pat.len()
        invariant
            k <= pat@.len(),
            n == text@.len(),
            i + pat@.len() <= n,
            forall|j: int| 0 <= j < k ==> text@[i + j] == pat@[j],
        decreases pat@.len() - k,
    {
        if text[i + k] != pat[k] {
            assert(text@.subrange(i as int, i + pat@.len())[k as int] == text@[i + k]);
            return false;
        }
        k += 1;
    }
    assert(text@.subrange(i as int, i + pat@.len()) =~= pat@);
    true
}

/// Searches `text` from `from` on for the first place where `pat` stands.
pub fn find_from(text: &[u8], pat: &[u8], from: usize) -> (r: Option<usize>)
    ensures
        match r {
            Some(i) => first_from(text@, pat@, from as int) == Some(i as int),
            None => first_from(text@, pat@, from as int) is None,
        },
{
    if pat.len() > text.len() || from > text.len() - pat.len() {
        return None;
    }
    let last: usize = text.len() - pat.len();
    let mut i: usize = from;
    loop
        invariant
            from <= i <= last,
            last == text@.len() - pat@.len(),
            forall|j: int| from <= j < i ==> !occurs_at(text@, pat@, j),
        decreases last - i,
    {
        if matches_at(text, pat, i) {
            proof {
                lemma_first_from_unique(text@, pat@, from as int, i as int);
            }
            return Some(i);
        }
        if i == last {
            return None;
        }
        i += 1;
    }
}

/// `text` with every occurrence of `pat` taken out, the occurrences being
/// sought from left to right and never overlapping. An empty `pat` takes
/// nothing out.
pub open spec fn without(text: Seq<u8>, pat: Seq<u8>) -> Seq<u8>
    decreases text.len(),
{
    if pat.len() == 0 || text.len() < pat.len() {
        text
    } else if occurs_at(text, pat, 0) {
        without(text.subrange(pat.len() as int, text.len() as int), pat)
    } else {
        seq![text[0]] + without(text.subrange(1, text.len() as int), pat)
    }
}

/// Removes every occurrence of `pat` from `text`.
pub fn remove_all(text: &[u8], pat: &[u8]) -> (out: Vec<u8>)
    ensures
        out@ == without(text@, pat@),
{
    let n: usize = text.len();
    let m: usize = pat.len();
    if m == 0 {
        return slice_to_vec(text);
    }
    let mut out: Vec<u8> = Vec::new();
    let mut i: usize = 0;
    assert(text@.subrange(0, n as int) =~= text@);
    while i < n
        invariant
            i <= n,
            n == text@.len(),
            m == pat@.len(),
            m > 0,
            out@ + without(text@.subrange(i as int, n as int), pat@) == without(text@, pat@),
        decreases n - i,
    {
        let ghost rest = text@.subrange(i as int, n as int);
        if n - i >= m && matches_at(text, pat, i) {
            proof {
                assert(rest.subrange(0, m as int) =~= text@.subrange(i as int, i + m));
                assert(rest.subrange(m as int, rest.len() as int) =~= text@.subrange(
                    i + m,
                    n as int,
                ));
            }
            i += m;
        } else {
            proof {
                let next = text@.subrange(i + 1, n as int);
                assert(rest.subrange(1, rest.len() as int) =~= next);
                assert(rest[0] == text@[i as int]);
                if n - i >= m {
                    assert(rest.subrange(0, m as int) =~= text@.subrange(i as int, i + m));
                    assert(!occurs_at(rest, pat@, 0));
                } else {
                    assert(rest =~= seq![text@[i as int]] + next);
                }
                assert(without(rest, pat@) == seq![text@[i as int]] + without(next, pat@));
                assert(out@.push(text@[i as int]) + without(next, pat@) =~= out@ + without(
                    rest,
                    pat@,
                ));
            }
            out.push(text[i]);
            i += 1;
        }
    }
    assert(out@ + Seq::<u8>::empty() =~= out@);
    out
}

/// Where the directive goes back in: behind the line on which `marker` first
/// occurs. That is right behind the first line end that follows the start of
/// that occurrence or, where the text ends before the line does, the end of
/// the text. There is no such place where `marker` does not occur.
pub open spec fn insertion_point(text: Seq<u8>, marker: Seq<u8>) -> Option<int> {
    match first_from(text, marker, 0) {
        Some(pos) => match first_from(text, seq![NEWLINE], pos) {
            Some(end) => Some(end + 1),
            None => Some(text.len() as int),
        },
        None => None,
    }
}

/// Finds the place where the directive goes back in.
pub fn find_insertion_point(text: &[u8], marker: &[u8]) -> (r: Option<usize>)
    ensures
        match r {
            Some(cut) => insertion_point(text@, marker@) == Some(cut as int) && cut <= text@.len(),
            None => insertion_point(text@, marker@) is None,
        },
{
    match find_from(text, marker, 0) {
        Some(pos) => {
            let mut line_end: Vec<u8> = Vec::new();
            line_end.push(NEWLINE);
            assert(line_end@ =~= seq![NEWLINE]);
            match find_from(text, line_end.as_slice(), pos) {
                Some(end) => {
                    let n: usize = text.len();
                    assert(is_first_from(text@, seq![NEWLINE], pos as int, end as int));
                    assert(seq![NEWLINE].len() == 1);
                    assert(end + 1 <= n);
                    Some(end + 1)
                },
                None => Some(text.len()),
            }
        },
        None => None,
    }
}

/// What is put in at the insertion point: an empty line, the directive on a
/// line of its own, and an empty line.
pub open spec fn include_block(directive: Seq<u8>) -> Seq<u8> {
    seq![NEWLINE] + directive + seq![NEWLINE, NEWLINE]
}

/// The deployed header: the generated text without the directive and, where
/// there is an insertion point, with the include block put in there.
pub open spec fn deployment_text(generated: Seq<u8>, directive: Seq<u8>, marker: Seq<u8>) -> Seq<
    u8,
> {
    let stripped = without(generated, directive);
    match insertion_point(stripped, marker) {
        Some(cut) => stripped.subrange(0, cut) + include_block(directive) + stripped.subrange(
            cut,
            stripped.len() as int,
        ),
        None => stripped,
    }
}

/// Appends the bytes of `src` from `from` up to `to`.
fn append_range(out: &mut Vec<u8>, src: &[u8], from: usize, to: usize)
    requires
        from <= to <= src@.len(),
    ensures
        final(out)@ == old(out)@ + src@.subrange(from as int, to as int),
{
    let mut i: usize = from;
    assert(out@ =~= old(out)@ + src@.subrange(from as int, i as int));
    while i < to
        invariant
            from <= i <= to <= src@.len(),
            out@ == old(out)@ + src@.subrange(from as int, i as int),
        decreases to - i,
    {
        out.push(src[i]);
        i += 1;
        assert(out@ =~= old(out)@ + src@.subrange(from as int, i as int));
    }
}

/// Makes the deployable header of the generated one: `directive` is removed
/// wherever it stands, and put back, set off by empty lines, behind the line
/// on which `marker` first occurs, which is the end of the text where that
/// line has no end. Where `marker` does not occur, the directive is not put
/// back.
pub fn deployment_header(generated: &[u8], directive: &[u8], marker: &[u8]) -> (out: Vec<u8>)
    ensures
        out@ == deployment_text(generated@, directive@, marker@),
{
    let stripped = remove_all(generated, directive);
    match find_insertion_point(stripped.as_slice(), marker) {
        Some(cut) => {
            let mut out: Vec<u8> = Vec::new();
            append_range(&mut out, stripped.as_slice(), 0, cut);
            out.push(NEWLINE);
            append_range(&mut out, directive, 0, directive.len());
            out.push(NEWLINE);
            out.push(NEWLINE);
            append_range(&mut out, stripped.as_slice(), cut, stripped.len());
            proof {
                assert(directive@.subrange(0, directive@.len() as int) =~= directive@);
                assert(out@ =~= stripped@.subrange(0, cut as int) + include_block(directive@)
                    + stripped@.subrange(cut as int, stripped@.len() as int));
            }
            out
        },
        None => stripped,
    }
}

/// An occurrence in `text` behind its first byte is an occurrence in the rest,
/// one place to the left, and the other way round.
proof fn lemma_occurs_at_tail(text: Seq<u8>, pat: Seq<u8>, j: int)
    requires
        text.len() > 0,
        0 <= j,
    ensures
        occurs_at(text.subrange(1, text.len() as int), pat, j) == occurs_at(text, pat, j + 1),
{
    let tail = text.subrange(1, text.len() as int);
    if j + pat.len() <= tail.len() {
        assert(tail.subrange(j, j + pat.len()) =~= text.subrange(j + 1, j + 1 + pat.len()));
    }
}

/// A text in which `pat` stands nowhere is left as it is.
pub proof fn lemma_without_absent(text: Seq<u8>, pat: Seq<u8>)
    requires
        forall|i: int| !occurs_at(text, pat, i),
    ensures
        without(text, pat) == text,
    decreases text.len(),
{
    if pat.len() == 0 || text.len() < pat.len() {
    } else {
        let tail = text.subrange(1, text.len() as int);
        assert(!occurs_at(text, pat, 0));
        assert forall|i: int| !occurs_at(tail, pat, i) by {
            if 0 <= i {
                lemma_occurs_at_tail(text, pat, i);
                assert(!occurs_at(text, pat, i + 1));
            }
        }
        lemma_without_absent(tail, pat);
        assert(seq![text[0]] + tail =~= text);
    }
}

/// Where `pat` first stands at `at`, the text before `at` is kept, the
/// occurrence at `at` is gone, and the removal goes on behind it.
pub proof fn lemma_without_first(text: Seq<u8>, pat: Seq<u8>, at: int)
    requires
        is_first_from(text, pat, 0, at),
    ensures
        without(text, pat) == text.subrange(0, at) + without(
            text.subrange(at + pat.len(), text.len() as int),
            pat,
        ),
    decreases at,
{
    let m = pat.len() as int;
    let n = text.len() as int;
    if m == 0 {
        assert(occurs_at(text, pat, 0)) by {
            assert(text.subrange(0, 0) =~= pat);
        }
        assert(at == 0);
        assert(text.subrange(0, n) =~= text);
        assert(text.subrange(0, 0) + text =~= text);
    } else if at == 0 {
        assert(text.subrange(0, 0) + without(text.subrange(m, n), pat) =~= without(
            text.subrange(m, n),
            pat,
        ));
    } else {
        let tail = text.subrange(1, n);
        assert(!occurs_at(text, pat, 0));
        assert(is_first_from(tail, pat, 0, at - 1)) by {
            lemma_occurs_at_tail(text, pat, at - 1);
            assert forall|j: int| 0 <= j < at - 1 implies !occurs_at(tail, pat, j) by {
                lemma_occurs_at_tail(text, pat, j);
                assert(!occurs_at(text, pat, j + 1));
            }
        }
        lemma_without_first(tail, pat, at - 1);
        assert(tail.subrange(at - 1 + m, tail.len() as int) =~= text.subrange(at + m, n));
        assert(seq![text[0]] + tail.subrange(0, at - 1) =~= text.subrange(0, at));
        assert(seq![text[0]] + (tail.subrange(0, at - 1) + without(text.subrange(at + m, n), pat))
            =~= text.subrange(0, at) + without(text.subrange(at + m, n), pat));
    }
}

/// A line end stands at `i` just where the byte at `i` is the line end.
proof fn lemma_line_end_at(text: Seq<u8>, i: int)
    requires
        0 <= i < text.len(),
    ensures
        occurs_at(text, seq![NEWLINE], i) == (text[i] == NEWLINE),
{
    let one = seq![NEWLINE];
    assert(one.len() == 1);
    assert(text.subrange(i, i + 1)[0] == text[i]);
    if text[i] == NEWLINE {
        assert(text.subrange(i, i + 1) =~= one);
    } else {
        assert(one[0] == NEWLINE);
    }
}

/// The insertion point lies behind the line of the marker's first
/// occurrence. Where a line ends from the marker's start on, it is right
/// behind the first such line end; where none does, it is the end of the
/// text.
pub proof fn lemma_insertion_point(text: Seq<u8>, marker: Seq<u8>)
    requires
        insertion_point(text, marker) is Some,
    ensures
        ({
            let cut = insertion_point(text, marker).unwrap();
            let pos = first_from(text, marker, 0).unwrap();
            &&& is_first_from(text, marker, 0, pos)
            &&& pos <= cut <= text.len()
            &&& match first_from(text, seq![NEWLINE], pos) {
                Some(end) => {
                    &&& cut == end + 1
                    &&& text[end] == NEWLINE
                    &&& forall|j: int| pos <= j < end ==> text[j] != NEWLINE
                },
                None => {
                    &&& cut == text.len()
                    &&& forall|j: int| pos <= j < text.len() ==> text[j] != NEWLINE
                },
            }
        }),
{
    let line_end = seq![NEWLINE];
    let pos = first_from(text, marker, 0).unwrap();
    assert(is_first_from(text, marker, 0, pos));
    assert(line_end.len() == 1);
    match first_from(text, line_end, pos) {
        Some(end) => {
            assert(is_first_from(text, line_end, pos, end));
            lemma_line_end_at(text, end);
            assert forall|j: int| pos <= j < end implies text[j] != NEWLINE by {
                lemma_line_end_at(text, j);
            }
        },
        None => {
            assert forall|j: int| pos <= j < text.len() implies text[j] != NEWLINE by {
                lemma_line_end_at(text, j);
                if occurs_at(text, line_end, j) {
                    lemma_first_from_exists(text, line_end, pos, j);
                }
            }
        },
    }
}

/// The two edits that make the deployed header, for a generated header in
/// which the directive stands somewhere and which, the directive taken out,
/// holds the marker. The directive is gone from where it first stood, with
/// all before it kept. The block with the directive stands at the insertion
/// point, behind the line of the marker's first occurrence, so that the
/// directive occurs one byte further on. With the block taken out again,
/// what is left is the generated text without the directive, byte for byte.
pub proof fn lemma_deployment_edits(
    generated: Seq<u8>,
    directive: Seq<u8>,
    marker: Seq<u8>,
    somewhere: int,
)
    requires
        occurs_at(generated, directive, somewhere),
        insertion_point(without(generated, directive), marker) is Some,
    ensures
        ({
            let stripped = without(generated, directive);
            let at = first_from(generated, directive, 0).unwrap();
            let cut = insertion_point(stripped, marker).unwrap();
            let pos = first_from(stripped, marker, 0).unwrap();
            let block = include_block(directive);
            let out = deployment_text(generated, directive, marker);
            &&& is_first_from(generated, directive, 0, at)
            &&& stripped == generated.subrange(0, at) + without(
                generated.subrange(at + directive.len(), generated.len() as int),
                directive,
            )
            &&& is_first_from(stripped, marker, 0, pos)
            &&& pos <= cut <= stripped.len()
            &&& out.len() == stripped.len() + block.len()
            &&& out.subrange(0, cut) == stripped.subrange(0, cut)
            &&& out.subrange(cut, cut + block.len()) == block
            &&& occurs_at(out, directive, cut + 1)
            &&& out.subrange(cut + block.len(), out.len() as int) == stripped.subrange(
                cut,
                stripped.len() as int,
            )
            &&& out.subrange(0, cut) + out.subrange(cut + block.len(), out.len() as int)
                == stripped
        }),
{
    let stripped = without(generated, directive);
    lemma_first_from_exists(generated, directive, 0, somewhere);
    let at = first_from(generated, directive, 0).unwrap();
    let cut = insertion_point(stripped, marker).unwrap();
    let block = include_block(directive);
    let out = deployment_text(generated, directive, marker);
    lemma_without_first(generated, directive, at);
    lemma_insertion_point(stripped, marker);
    let head = stripped.subrange(0, cut);
    let rest = stripped.subrange(cut, stripped.len() as int);
    assert(out == head + block + rest);
    assert(block.len() == directive.len() + 3);
    assert(out.subrange(0, cut) =~= head);
    assert(out.subrange(cut, cut + block.len()) =~= block);
    assert(out.subrange(cut + block.len(), out.len() as int) =~= rest);
    assert(out.subrange(cut + 1, cut + 1 + directive.len()) =~= directive);
    assert(head + rest =~= stripped);
}

/// Where taking the directive out has left none behind, the deployed header
/// holds the directive nowhere but in or across the block that was put in:
/// none of its occurrences lies wholly before the block or wholly behind it.
pub proof fn lemma_directive_only_at_block(
    generated: Seq<u8>,
    directive: Seq<u8>,
    marker: Seq<u8>,
    i: int,
)
    requires
        forall|j: int| !occurs_at(without(generated, directive), directive, j),
        insertion_point(without(generated, directive), marker) is Some,
        occurs_at(deployment_text(generated, directive, marker), directive, i),
    ensures
        ({
            let cut = insertion_point(without(generated, directive), marker).unwrap();
            cut - directive.len() < i < cut + include_block(directive).len()
        }),
{
    let stripped = without(generated, directive);
    let cut = insertion_point(stripped, marker).unwrap();
    let block = include_block(directive);
    let out = deployment_text(generated, directive, marker);
    let m = directive.len() as int;
    lemma_insertion_point(stripped, marker);
    let head = stripped.subrange(0, cut);
    let rest = stripped.subrange(cut, stripped.len() as int);
    assert(out == head + block + rest);
    if i + m <= cut {
        assert(stripped.subrange(i, i + m) =~= out.subrange(i, i + m));
        assert(occurs_at(stripped, directive, i));
    } else if i >= cut + block.len() {
        let k = i - block.len();
        assert(stripped.subrange(k, k + m) =~= out.subrange(i, i + m));
        assert(occurs_at(stripped, directive, k));
    }
}

/// Where taking the directive out has left none behind and the directive
/// holds no line end, the deployed header holds the directive exactly once:
/// in the block, one byte behind the insertion point.
pub proof fn lemma_directive_exactly_once(
    generated: Seq<u8>,
    directive: Seq<u8>,
    marker: Seq<u8>,
)
    requires
        forall|j: int| !occurs_at(without(generated, directive), directive, j),
        forall|k: int| 0 <= k < directive.len() ==> directive[k] != NEWLINE,
        insertion_point(without(generated, directive), marker) is Some,
    ensures
        ({
            let cut = insertion_point(without(generated, directive), marker).unwrap();
            let out = deployment_text(generated, directive, marker);
            &&& occurs_at(out, directive, cut + 1)
            &&& forall|i: int| occurs_at(out, directive, i) ==> i == cut + 1
        }),
{
    let stripped = without(generated, directive);
    let cut = insertion_point(stripped, marker).unwrap();
    let block = include_block(directive);
    let out = deployment_text(generated, directive, marker);
    let m = directive.len() as int;
    lemma_insertion_point(stripped, marker);
    let head = stripped.subrange(0, cut);
    let rest = stripped.subrange(cut, stripped.len() as int);
    assert(out == head + block + rest);
    assert(block.len() == m + 3);
    assert(out.subrange(cut + 1, cut + 1 + m) =~= directive);
    assert(out[cut] == NEWLINE);
    assert(out[cut + m + 1] == NEWLINE);
    assert(out[cut + m + 2] == NEWLINE);
    assert(m > 0) by {
        if m == 0 {
            assert(stripped.subrange(0, 0) =~= directive);
            assert(occurs_at(stripped, directive, 0));
        }
    }
    assert forall|i: int| occurs_at(out, directive, i) implies i == cut + 1 by {
        lemma_directive_only_at_block(generated, directive, marker, i);
        let found = out.subrange(i, i + m);
        assert(found == directive);
        if i <= cut {
            assert(found[cut - i] == out[cut]);
            assert(directive[cut - i] != NEWLINE);
        } else if i >= cut + 2 {
            if i <= cut + m + 1 {
                assert(found[cut + m + 1 - i] == out[cut + m + 1]);
                assert(directive[cut + m + 1 - i] != NEWLINE);
            } else {
                assert(found[cut + m + 2 - i] == out[cut + m + 2]);
                assert(directive[cut + m + 2 - i] != NEWLINE);
            }
        }
    }
}

/// The directive by which the generated header includes the hand-written
/// interface.
pub open spec fn interface_directive() -> Seq<u8> {
    "#include \"tectonic-cxx-interface.h\"".spec_bytes()
}

/// The text that closes the namespace of the runtime support types.
pub open spec fn namespace_end() -> Seq<u8> {
    "} // namespace rust".spec_bytes()
}

/// Makes the deployable header of the generated interface header, with the
/// directive and the marker that the interface of this library has.
pub fn deployed_interface_header(generated: &str) -> (out: Vec<u8>)
    ensures
        out@ == deployment_text(generated.spec_bytes(), interface_directive(), namespace_end()),
{
    deployment_header(
        generated.as_bytes(),
        "#include \"tectonic-cxx-interface.h\"".as_bytes(),
        "} // namespace rust".as_bytes(),
    )
}

} // verus!
