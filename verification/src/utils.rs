//! Small display helpers: city indices rendered as letters, and tours
//! rendered as bracketed letter lists.

use vstd::prelude::*;

verus! {

/// A value that can be rendered as a single character, the way city indices
/// are shown as letters (`0` is `A`, `1` is `B`, and so on).
pub trait ToCharIndex {
    /// Whether the value is small enough to have a character form.
    spec fn char_index_ok(&self) -> bool;

    /// The character the value is rendered as.
    spec fn spec_char_index(&self) -> char;

    /// Renders the value as its character.
    fn to_char_index(&self) -> (c: char)
        requires
            self.char_index_ok(),
        ensures
            c == self.spec_char_index(),
    ;
}

impl ToCharIndex for usize {
    /// The rendering adds the index to the byte value of `A`, so the index
    /// must keep the sum within a byte.
    open spec fn char_index_ok(&self) -> bool {
        *self <= 190
    }

    open spec fn spec_char_index(&self) -> char {
        ((65 + *self) as u8) as char
    }

    fn to_char_index(&self) -> (c: char) {
        (65u8 + (*self as u8)) as char
    }
}

/// The rendering of the elements of `s`, each element's character followed
/// by a comma and a space, except the last.
pub open spec fn display_elems<T: ToCharIndex>(s: Seq<T>) -> Seq<char>
    decreases s.len(),
{
    if s.len() == 0 {
        Seq::empty()
    } else if s.len() == 1 {
        seq![s[0].spec_char_index()]
    } else {
        seq![s[0].spec_char_index(), ',', ' '] + display_elems(s.skip(1))
    }
}

/// The rendering of the first `i` elements of `s`, each followed by a comma
/// and a space.
pub open spec fn display_prefix<T: ToCharIndex>(s: Seq<T>, i: int) -> Seq<char>
    decreases i,
{
    if i <= 0 {
        Seq::empty()
    } else {
        display_prefix(s, i - 1) + seq![s[i - 1].spec_char_index(), ',', ' ']
    }
}

/// A prefix rendering can be peeled from the front instead of the back.
proof fn lemma_display_prefix_front<T: ToCharIndex>(s: Seq<T>, i: int)
    requires
        1 <= i < s.len(),
    ensures
        display_prefix(s, i) == seq![s[0].spec_char_index(), ',', ' '] + display_prefix(
            s.skip(1),
            i - 1,
        ),
    decreases i,
{
    if i == 1 {
        assert(display_prefix(s, 0) =~= Seq::<char>::empty());
        assert(display_prefix(s.skip(1), 0) =~= Seq::<char>::empty());
        assert(display_prefix(s, 1) =~= seq![s[0].spec_char_index(), ',', ' '] + display_prefix(
            s.skip(1),
            0,
        ));
    } else {
        lemma_display_prefix_front(s, i - 1);
        assert(s.skip(1)[i - 2] == s[i - 1]);
        assert(display_prefix(s, i) =~= seq![s[0].spec_char_index(), ',', ' '] + display_prefix(
            s.skip(1),
            i - 1,
        ));
    }
}

/// The full rendering is the prefix rendering of all but the last element,
/// followed by the last element's character alone.
proof fn lemma_display_elems_split<T: ToCharIndex>(s: Seq<T>)
    requires
        s.len() >= 1,
    ensures
        display_elems(s) == display_prefix(s, s.len() - 1) + seq![
            s[s.len() - 1].spec_char_index(),
        ],
    decreases s.len(),
{
    if s.len() == 1 {
        assert(display_elems(s) =~= display_prefix(s, 0) + seq![s[0].spec_char_index()]);
    } else {
        lemma_display_elems_split(s.skip(1));
        lemma_display_prefix_front(s, s.len() - 1);
        assert(s.skip(1)[s.skip(1).len() - 1] == s[s.len() - 1]);
        assert(display_elems(s) =~= display_prefix(s, s.len() - 1) + seq![
            s[s.len() - 1].spec_char_index(),
        ]);
    }
}

/// Relies on the `FromIterator` impl of `String` over `char`: collecting
/// characters yields the string of exactly those characters, in order.
#[verifier::external_body]
fn chars_to_string(v: &Vec<char>) -> (r: String)
    ensures
        r@ == v@,
{
    v.iter().collect()
}

/// A list of values that can be rendered as a bracketed, comma-separated
/// character list, such as `[A, C, B]` for the tour `0, 2, 1`.
pub trait ToDisplayPath {
    /// Whether the rendering is defined: non-empty, and every element has
    /// a character form.
    spec fn display_ok(&self) -> bool;

    /// The characters of the rendering.
    spec fn spec_display_path(&self) -> Seq<char>;

    /// Renders the list.
    fn to_display_path(&self) -> (r: String)
        requires
            self.display_ok(),
        ensures
            r@ == self.spec_display_path(),
    ;
}

impl<T: ToCharIndex> ToDisplayPath for Vec<T> {
    open spec fn display_ok(&self) -> bool {
        &&& self@.len() >= 1
        &&& forall|i: int| 0 <= i < self@.len() ==> self@[i].char_index_ok()
    }

    open spec fn spec_display_path(&self) -> Seq<char> {
        seq!['['] + display_elems(self@) + seq![']']
    }

    fn to_display_path(&self) -> (r: String) {
        let mut out: Vec<char> = Vec::new();
        out.push('[');
        let last = self.len() - 1;
        let mut i: usize = 0;
        while i < last
            invariant
                last == self@.len() - 1,
                i <= last,
                forall|q: int| 0 <= q < self@.len() ==> self@[q].char_index_ok(),
                out@ == seq!['['] + display_prefix(self@, i as int),
            decreases last - i,
        {
            let c = self[i].to_char_index();
            out.push(c);
            out.push(',');
            out.push(' ');
            proof {
                assert(out@ =~= seq!['['] + display_prefix(self@, i + 1));
            }
            i = i + 1;
        }
        let c = self[last].to_char_index();
        out.push(c);
        out.push(']');
        proof {
            lemma_display_elems_split(self@);
            assert(out@ =~= seq!['['] + display_elems(self@) + seq![']']);
        }
        chars_to_string(&out)
    }
}

} // verus!
