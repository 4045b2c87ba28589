//! Finding the references that a note's text holds.
//!
//! A reference is written `[[target]]`: two opening brackets, the target, two
//! closing brackets. The target runs up to the first `]]` that follows the
//! opening brackets, and the search for the next reference goes on behind it.

use vstd::prelude::*;
use vstd::string::StrSliceExecFns;

verus! {

/// Whether the character `c` stands at `i` and again at `i + 1`.
pub open spec fn pair_at(s: Seq<char>, c: char, i: int) -> bool {
    0 <= i && i + 1 < s.len() && s[i] == c && s[i + 1] == c
}

/// The first position from `from` on at which a pair of `c` starts, or the
/// length of `s` if there is none.
pub open spec fn find_pair(s: Seq<char>, c: char, from: int) -> int
    decreases s.len() - from,
{
    if from < 0 || from + 1 >= s.len() {
        s.len() as int
    } else if s[from] == c && s[from + 1] == c {
        from
    } else {
        find_pair(s, c, from + 1)
    }
}

/// The targets of the references in `s` that open at `from` or later, in the
/// order in which they stand.
pub open spec fn links_from(s: Seq<char>, from: int) -> Seq<Seq<char>>
    decreases s.len() - from,
{
    let open = find_pair(s, '[', from);
    let close = find_pair(s, ']', open + 2);
    if from <= open && open + 2 <= close && close + 1 < s.len() {
        seq![s.subrange(open + 2, close)].add(links_from(s, close + 2))
    } else {
        Seq::empty()
    }
}

/// The targets of all references in `s`, in the order in which they stand.
pub open spec fn links(s: Seq<char>) -> Seq<Seq<char>> {
    links_from(s, 0)
}

/// `find_pair` returns the least position from `from` on at which a pair of
/// `c` starts.
pub proof fn lemma_find_pair(s: Seq<char>, c: char, from: int)
    requires
        0 <= from,
    ensures
        find_pair(s, c, from) <= s.len(),
        from <= s.len() ==> from <= find_pair(s, c, from),
        find_pair(s, c, from) < s.len() ==> pair_at(s, c, find_pair(s, c, from)),
        forall|i: int| from <= i < find_pair(s, c, from) ==> !pair_at(s, c, i),
    decreases s.len() - from,
{
    if from + 1 >= s.len() {
    } else if s[from] == c && s[from + 1] == c {
    } else {
        lemma_find_pair(s, c, from + 1);
    }
}

/// The characters of a string.
pub fn chars_of(s: &str) -> (chars: Vec<char>)
    ensures
        chars@ == s@,
{
    let mut chars: Vec<char> = Vec::new();
    for c in it: s.chars()
        invariant
            it.seq() == s@,
            it.index() <= it.seq().len(),
            chars@ == it.seq().take(it.index() as int),
            it.index() == it.seq().len() ==> chars@ == it.seq(),
    {
        proof {
            let all = it.seq();
            assert(all.take(it.index() + 1) =~= all.take(it.index() as int).push(c));
            assert(all.take(all.len() as int) =~= all);
        }
        chars.push(c);
    }
    chars
}

/// The first position from `from` on at which a pair of `c` starts in
/// `chars`, or the length of `chars` if there is none.
pub fn first_pair(chars: &Vec<char>, c: char, from: usize) -> (at: usize)
    ensures
        at == find_pair(chars@, c, from as int),
{
    let len: usize = chars.len();
    let mut i: usize = from;
    while i < len && len - i >= 2
        invariant
            len == chars@.len(),
            from <= i,
            find_pair(chars@, c, from as int) == find_pair(chars@, c, i as int),
        decreases len - i,
    {
        if chars[i] == c && chars[i + 1] == c {
            return i;
        }
        i = i + 1;
    }
    len
}

/// The targets of all references in `content`, in the order in which they
/// stand.
pub fn extract_links(content: &str) -> (targets: Vec<String>)
    ensures
        targets@.len() == links(content@).len(),
        forall|i: int| 0 <= i < targets@.len() ==> (#[trigger] targets@[i])@ == links(content@)[i],
{
    let chars = chars_of(content);
    let len: usize = chars.len();
    let mut targets: Vec<String> = Vec::new();
    let mut from: usize = 0;
    loop
        invariant
            chars@ == content@,
            len == chars@.len(),
            from <= len,
            links(content@) == targets@.map_values(|t: String| t@).add(
                links_from(content@, from as int),
            ),
        ensures
            links_from(content@, from as int) == Seq::<Seq<char>>::empty(),
        decreases len - from,
    {
        let open: usize = first_pair(&chars, '[', from);
        proof {
            lemma_find_pair(chars@, '[', from as int);
        }
        if open >= len {
            break;
        }
        let close: usize = first_pair(&chars, ']', open + 2);
        proof {
            lemma_find_pair(chars@, ']', open + 2);
        }
        if close >= len {
            break;
        }
        let target = content.substring_char(open + 2, close).to_owned();
        proof {
            let before = targets@.map_values(|t: String| t@);
            assert(targets@.push(target).map_values(|t: String| t@) =~= before.push(target@));
            assert(before.add(seq![target@].add(links_from(content@, close + 2)))
                =~= before.push(target@).add(links_from(content@, close + 2)));
        }
        targets.push(target);
        from = close + 2;
    }
    proof {
        let done = targets@.map_values(|t: String| t@);
        assert(done.add(Seq::empty()) =~= done);
    }
    targets
}

} // verus!
