//! Arrays as program text.

use crate::array::ExponentialArray;
use core::fmt::Debug;
use vstd::prelude::*;
use vstd::string::StringExecFns;

verus! {

/// The texts with a comma and a space between each two of them.
pub open spec fn joined(texts: Seq<Seq<char>>) -> Seq<char>
    decreases texts.len(),
{
    if texts.len() == 0 {
        Seq::empty()
    } else if texts.len() == 1 {
        texts[0]
    } else {
        joined(texts.drop_last()) + ", "@ + texts.last()
    }
}

/// The texts as a list.
pub open spec fn list_text(texts: Seq<Seq<char>>) -> Seq<char> {
    "["@ + joined(texts) + "]"@
}

/// What each of `strings` holds.
pub open spec fn string_views(strings: Seq<String>) -> Seq<Seq<char>> {
    strings.map_values(|string: String| string@)
}

/// Returns the text of one element.
///
/// This formats the element with its [`Debug`]. Of the text nothing is claimed: the
/// type of the element decides it.
#[verifier::external_body]
fn element_text<T: Debug>(value: &T) -> (text: String) {
    format!("{:?}", value)
}

/// An element may be shown as `text`.
pub closed spec fn shown_as<T: Debug>(value: T, text: String) -> bool {
    call_ensures(element_text::<T>, (&value,), text)
}

/// An element is shown as a text exactly if formatting it may give the text.
proof fn shown_means_formatted<T: Debug>(value: T, text: String)
    ensures
        shown_as(value, text) <==> call_ensures(element_text::<T>, (&value,), text),
{
}

impl<T, const BASE_SHIFT: usize, const CHUNKS: usize> ExponentialArray<T, BASE_SHIFT, CHUNKS> {
    /// Returns the elements as a list in program text.
    pub fn debug_string(&self) -> (text: String) where T: Debug
        requires
            self.wf(),
        ensures
            exists|strings: Seq<String>|
                {
                    &&& #[trigger] string_views(strings).len() == self@.len()
                    &&& text@ == list_text(string_views(strings))
                    &&& forall|i: int|
                        #![trigger strings[i]]
                        0 <= i < self@.len() ==> shown_as(self@[i], strings[i])
                },
    {
        self.list_string(element_text::<T>)
    }

    /// Returns the texts that `render` gives of the elements, as a list.
    pub fn list_string<F: Fn(&T) -> String>(&self, render: F) -> (text: String)
        requires
            self.wf(),
            forall|i: int|
                0 <= i < self@.len() ==> #[trigger] call_requires(render, (&self@[i],)),
        ensures
            exists|strings: Seq<String>|
                {
                    &&& #[trigger] string_views(strings).len() == self@.len()
                    &&& text@ == list_text(string_views(strings))
                    &&& forall|i: int|
                        #![trigger strings[i]]
                        0 <= i < self@.len() ==> call_ensures(
                            render,
                            (&self@[i],),
                            strings[i],
                        )
                },
    {
        proof {
            self.lemma_view();
        }
        let mut text = String::from_str("[");
        let ghost mut strings: Seq<String> = Seq::empty();
        let mut index: usize = 0;
        assert(text@ =~= "["@ + joined(string_views(strings)));
        while index < self.len
            invariant
                self.wf(),
                self.len == self@.len(),
                index <= self.len,
                strings.len() == index,
                forall|i: int|
                    0 <= i < self@.len() ==> #[trigger] call_requires(render, (&self@[i],)),
                forall|i: int|
                    #![trigger strings[i]]
                    0 <= i < index ==> call_ensures(render, (&self@[i],), strings[i]),
                text@ == "["@ + joined(string_views(strings)),
            decreases self.len - index,
        {
            if index > 0 {
                text.append(", ");
            }
            assert(call_requires(render, (&self@[index as int],)));
            let string = render(self.get_unchecked(index));
            text.append(string.as_str());
            proof {
                let fewer = string_views(strings);
                strings = strings.push(string);
                assert(string_views(strings).drop_last() =~= fewer);
                assert(text@ =~= "["@ + joined(string_views(strings)));
            }
            index = index + 1;
        }
        text.append("]");
        assert(string_views(strings).len() == self@.len());
        text
    }
}

} // verus!
