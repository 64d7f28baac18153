//! Helpers on strings and lists of strings.

use vstd::prelude::*;
use vstd::string::StrSliceExecFns;
use vstd::string::StringSliceAdditionalSpecFns;

verus! {

/// Whether two string slices hold the same characters.
pub(crate) fn str_eq(a: &str, b: &str) -> (same: bool)
    ensures
        same == (a@ == b@),
{
    let x = a.as_bytes();
    let y = b.as_bytes();
    proof {
        vstd::utf8::encode_utf8_decode_utf8(a@);
        vstd::utf8::encode_utf8_decode_utf8(b@);
    }
    if x.len() != y.len() {
        return false;
    }
    let mut i: usize = 0;
    while i < x.len()
        invariant
            x@ == vstd::utf8::encode_utf8(a@),
            y@ == vstd::utf8::encode_utf8(b@),
            vstd::utf8::decode_utf8(x@) == a@,
            vstd::utf8::decode_utf8(y@) == b@,
            x@.len() == y@.len(),
            i <= x@.len(),
            forall|k: int| 0 <= k < i ==> x@[k] == y@[k],
        decreases x@.len() - i,
    {
        if x[i] != y[i] {
            return false;
        }
        i += 1;
    }
    assert(x@ =~= y@);
    true
}

/// The first `i + 1` elements of a sequence hold what the first `i` hold, and the element at `i`.
pub proof fn lemma_take_contains<A>(s: Seq<A>, i: int)
    requires
        0 <= i < s.len(),
    ensures
        forall|x: A| s.take(i + 1).contains(x) <==> (s.take(i).contains(x) || x == s[i]),
{
    assert forall|x: A| s.take(i + 1).contains(x) <==> (s.take(i).contains(x) || x == s[i]) by {
        if s.take(i + 1).contains(x) {
            let j = choose|j: int| 0 <= j < i + 1 && #[trigger] s.take(i + 1)[j] == x;
            if j < i {
                assert(s.take(i)[j] == x);
            }
        }
        if s.take(i).contains(x) {
            let j = choose|j: int| 0 <= j < i && #[trigger] s.take(i)[j] == x;
            assert(s.take(i + 1)[j] == x);
        }
        if x == s[i] {
            assert(s.take(i + 1)[i] == x);
        }
    }
}

/// Whether `x` is among the first `i + 1` elements of a sequence.
pub proof fn lemma_take_has<A>(s: Seq<A>, i: int, x: A)
    requires
        0 <= i < s.len(),
    ensures
        s.take(i + 1).contains(x) <==> (s.take(i).contains(x) || x == s[i]),
{
    lemma_take_contains(s, i);
}

/// In a sequence without duplicates, the element at `i` is not among the first `i`.
pub proof fn lemma_take_fresh<A>(s: Seq<A>, i: int)
    requires
        s.no_duplicates(),
        0 <= i < s.len(),
    ensures
        !s.take(i).contains(s[i]),
{
    if s.take(i).contains(s[i]) {
        let j = choose|j: int| 0 <= j < i && #[trigger] s.take(i)[j] == s[i];
        assert(s[j] == s[i]);
    }
}

/// A sequence without the element `value`, which it holds once.
pub open spec fn without<A>(s: Seq<A>, value: A) -> Seq<A> {
    s.remove(s.index_of(value))
}

/// Taking out an element of a sequence without duplicates leaves the others, in order.
pub proof fn lemma_without<A>(s: Seq<A>, value: A)
    requires
        s.no_duplicates(),
        s.contains(value),
    ensures
        without(s, value).no_duplicates(),
        without(s, value).len() == s.len() - 1,
        forall|x: A| without(s, value).contains(x) <==> (s.contains(x) && x != value),
        forall|i: int| 0 <= i < s.len() && s[i] == value ==> without(s, value) == s.remove(i),
{
    let k = s.index_of(value);
    let r = without(s, value);
    assert(0 <= k < s.len() && s[k] == value);
    assert forall|a: int, b: int| 0 <= a < b < r.len() implies r[a] != r[b] by {
        let a0 = if a < k { a } else { a + 1 };
        let b0 = if b < k { b } else { b + 1 };
        assert(r[a] == s[a0] && r[b] == s[b0]);
    }
    assert forall|x: A| r.contains(x) <==> (s.contains(x) && x != value) by {
        if r.contains(x) {
            let j = choose|j: int| 0 <= j < r.len() && r[j] == x;
            let j0 = if j < k { j } else { j + 1 };
            assert(s[j0] == x);
        }
        if s.contains(x) && x != value {
            let j0 = choose|j: int| 0 <= j < s.len() && s[j] == x;
            let j = if j0 < k { j0 } else { j0 - 1 };
            assert(r[j] == x);
        }
    }
}

/// Whether `text` ends with `suffix`.
pub open spec fn has_suffix(text: Seq<char>, suffix: Seq<char>) -> bool {
    suffix.len() <= text.len() && text.subrange(text.len() - suffix.len(), text.len() as int) == suffix
}

/// Whether `text` ends with `suffix`.
pub(crate) fn ends_with(text: &str, suffix: &str) -> (ends: bool)
    ensures
        ends == has_suffix(text@, suffix@),
{
    let x = characters(text);
    let y = characters(suffix);
    if y.len() > x.len() {
        return false;
    }
    let start = x.len() - y.len();
    let ghost tail = text@.subrange(start as int, text@.len() as int);
    let mut i: usize = 0;
    while i < y.len()
        invariant
            x@ == text@,
            y@ == suffix@,
            start + y@.len() == x@.len(),
            x@.len() <= usize::MAX,
            tail == text@.subrange(start as int, text@.len() as int),
            i <= y@.len(),
            forall|k: int| 0 <= k < i ==> tail[k] == y@[k],
        decreases y@.len() - i,
    {
        if x[start + i] != y[i] {
            assert(tail[i as int] != suffix@[i as int]);
            return false;
        }
        i += 1;
    }
    assert(tail =~= suffix@);
    true
}

/// The text before `suffix`, where `text` ends with it.
pub(crate) fn strip_suffix<'a>(text: &'a str, suffix: &str) -> (rest: Option<&'a str>)
    ensures
        match rest {
            Some(before) => has_suffix(text@, suffix@) && before@ == text@.subrange(
                0,
                text@.len() - suffix@.len(),
            ),
            None => !has_suffix(text@, suffix@),
        },
{
    if ends_with(text, suffix) {
        let length = text.unicode_len();
        let short = suffix.unicode_len();
        Some(text.substring_char(0, length - short))
    } else {
        None
    }
}

/// The characters of a string.
pub fn characters(text: &str) -> (list: Vec<char>)
    ensures
        list@ == text@,
{
    let length = text.unicode_len();
    let mut list: Vec<char> = Vec::new();
    let mut i: usize = 0;
    while i < length
        invariant
            length == text@.len(),
            i <= length,
            list@ == text@.take(i as int),
        decreases length - i,
    {
        list.push(text.get_char(i));
        assert(list@ =~= text@.take(i + 1));
        i += 1;
    }
    assert(text@.take(length as int) =~= text@);
    list
}

/// The first `count` elements of a sequence, each kept where it occurs first.
pub open spec fn unique<A>(s: Seq<A>, count: nat) -> Seq<A>
    decreases count,
{
    if count == 0 || count > s.len() {
        Seq::empty()
    } else {
        let before = unique(s, (count - 1) as nat);
        if before.contains(s[count - 1]) {
            before
        } else {
            before.push(s[count - 1])
        }
    }
}

/// The elements of a sequence, each once, in the order in which they occur first.
pub open spec fn once<A>(s: Seq<A>) -> Seq<A> {
    unique(s, s.len())
}

/// What is kept of a sequence holds each of its elements, and none twice.
pub proof fn lemma_unique<A>(s: Seq<A>, count: nat)
    requires
        count <= s.len(),
    ensures
        unique(s, count).no_duplicates(),
        forall|x: A| unique(s, count).contains(x) <==> s.take(count as int).contains(x),
    decreases count,
{
    if count > 0 {
        let before = unique(s, (count - 1) as nat);
        let after = unique(s, count);
        lemma_unique(s, (count - 1) as nat);
        lemma_take_contains(s, count - 1);
        if !before.contains(s[count - 1]) {
            assert forall|x: A| after.contains(x) <==> (before.contains(x) || x == s[count - 1]) by {
                if before.contains(x) {
                    let j = choose|j: int| 0 <= j < before.len() && before[j] == x;
                    assert(after[j] == x);
                }
                if x == s[count - 1] {
                    assert(after[before.len() as int] == x);
                }
                if after.contains(x) {
                    let j = choose|j: int| 0 <= j < after.len() && after[j] == x;
                    if j < before.len() {
                        assert(before[j] == x);
                    }
                }
            }
            assert forall|a: int, b: int| 0 <= a < b < after.len() implies after[a] != after[b] by {
                if b == before.len() {
                    assert(before[a] == after[a]);
                    assert(before.contains(after[a]));
                } else {
                    assert(before[a] == after[a] && before[b] == after[b]);
                }
            }
        }
    } else {
        assert(s.take(0) =~= Seq::<A>::empty());
    }
}

/// A sequence that holds nothing twice is kept as it is.
pub proof fn lemma_once_same<A>(s: Seq<A>, count: nat)
    requires
        s.no_duplicates(),
        count <= s.len(),
    ensures
        unique(s, count) == s.take(count as int),
        count == s.len() ==> once(s) == s,
    decreases count,
{
    if count > 0 {
        lemma_once_same(s, (count - 1) as nat);
        lemma_take_fresh(s, count - 1);
        assert(s.take(count - 1).push(s[count - 1]) =~= s.take(count as int));
    } else {
        assert(s.take(0) =~= Seq::<A>::empty());
    }
    if count == s.len() {
        assert(s.take(count as int) =~= s);
    }
}

/// The strings of a list, each once, in the order in which they occur first.
pub fn unique_strings(list: &Vec<String>) -> (kept: Vec<String>)
    ensures
        kept.deep_view() == once(list.deep_view()),
{
    let mut kept: Vec<String> = Vec::new();
    let mut i: usize = 0;
    assert(kept.deep_view() =~= Seq::<Seq<char>>::empty());
    while i < list.len()
        invariant
            i <= list@.len(),
            list@.len() == list.deep_view().len(),
            kept.deep_view() == unique(list.deep_view(), i as nat),
        decreases list@.len() - i,
    {
        let ghost before = kept.deep_view();
        assert(list.deep_view()[i as int] == list@[i as int]@);
        if !contains_string(&kept, list[i].as_str()) {
            kept.push(list[i].clone());
            assert(kept.deep_view() =~= before.push(list@[i as int]@));
        }
        i += 1;
    }
    kept
}

/// The length of a string in bytes.
pub fn byte_length(text: &str) -> (length: usize)
    ensures
        length == vstd::utf8::encode_utf8(text@).len(),
{
    text.as_bytes().len()
}

/// A copy of a list of strings.
pub fn clone_strings(list: &Vec<String>) -> (copy: Vec<String>)
    ensures
        copy.deep_view() == list.deep_view(),
{
    let mut copy: Vec<String> = Vec::new();
    let mut i: usize = 0;
    while i < list.len()
        invariant
            i <= list@.len(),
            copy@.len() == i,
            forall|j: int| 0 <= j < i ==> copy@[j]@ == list@[j]@,
        decreases list@.len() - i,
    {
        copy.push(list[i].clone());
        i += 1;
    }
    assert(copy.deep_view() =~= list.deep_view());
    copy
}

/// Whether two lists hold the same strings in the same order.
pub fn same_strings(a: &Vec<String>, b: &Vec<String>) -> (same: bool)
    ensures
        same == (a.deep_view() == b.deep_view()),
{
    if a.len() != b.len() {
        assert(a.deep_view().len() != b.deep_view().len());
        return false;
    }
    let mut i: usize = 0;
    while i < a.len()
        invariant
            i <= a@.len(),
            a@.len() == b@.len(),
            forall|j: int| 0 <= j < i ==> a@[j]@ == b@[j]@,
        decreases a@.len() - i,
    {
        if !str_eq(a[i].as_str(), b[i].as_str()) {
            assert(a.deep_view()[i as int] != b.deep_view()[i as int]);
            return false;
        }
        i += 1;
    }
    assert(a.deep_view() =~= b.deep_view());
    true
}

/// Whether `list` holds `item`.
pub fn contains_string(list: &Vec<String>, item: &str) -> (found: bool)
    ensures
        found == list.deep_view().contains(item@),
{
    let mut i: usize = 0;
    while i < list.len()
        invariant
            i <= list@.len(),
            forall|j: int| 0 <= j < i ==> list@[j]@ != item@,
        decreases list@.len() - i,
    {
        if str_eq(list[i].as_str(), item) {
            assert(list.deep_view()[i as int] == item@);
            return true;
        }
        i += 1;
    }
    assert forall|j: int| 0 <= j < list.deep_view().len() implies list.deep_view()[j] != item@ by {
        assert(list.deep_view()[j] == list@[j]@);
    }
    false
}

} // verus!
