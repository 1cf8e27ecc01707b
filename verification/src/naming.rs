//! How a tag type's name becomes the default name of the metric field that
//! carries it: `HttpAuth` becomes `http_auth`.

use vstd::prelude::*;

use crate::text::push_char;

verus! {

/// Whether a character has the Unicode `Uppercase` property.
pub uninterp spec fn unicode_uppercase(c: char) -> bool;

/// The characters of a character's Unicode lowercase mapping.
pub uninterp spec fn unicode_lowercase(c: char) -> Seq<char>;

/// `char::is_uppercase`: whether `c` has the Unicode `Uppercase` property.
#[verifier::external_body]
fn is_uppercase(c: char) -> (b: bool)
    ensures
        b == unicode_uppercase(c),
{
    c.is_uppercase()
}

/// `char::to_lowercase`, collected: the characters of the lowercase
/// mapping of `c`.
#[verifier::external_body]
fn lowercase(c: char) -> (r: Vec<char>)
    ensures
        r@ == unicode_lowercase(c),
{
    c.to_lowercase().collect()
}

/// The snake-case form of a name: every character lowercased, with an
/// underscore before each uppercase character but the first.
pub open spec fn snake_case(cs: Seq<char>) -> Seq<char>
    decreases cs.len(),
{
    if cs.len() == 0 {
        Seq::empty()
    } else {
        let c = cs.last();
        let sep = if unicode_uppercase(c) && cs.len() > 1 {
            seq!['_']
        } else {
            Seq::empty()
        };
        snake_case(cs.drop_last()) + sep + unicode_lowercase(c)
    }
}

/// Convert a type name to snake case.
pub fn to_snake_case(s: &str) -> (r: String)
    ensures
        r@ == snake_case(s@),
{
    broadcast use vstd::string::axiom_spec_iter;

    let mut result = String::new();
    let mut first = true;
    for ch in it: s.chars()
        invariant
            it.seq() == s@,
            first == (it.index() == 0),
            result@ == snake_case(s@.take(it.index() as int)),
    {
        let ghost i = it.index();
        let prefix = Ghost(s@.take(i as int));
        if is_uppercase(ch) && !first {
            push_char(&mut result, '_');
        }
        let lower = lowercase(ch);
        let mut j: usize = 0;
        while j < lower.len()
            invariant
                j <= lower@.len(),
                result@ == snake_case(prefix@) + (if unicode_uppercase(ch) && i > 0 {
                    seq!['_']
                } else {
                    Seq::<char>::empty()
                }) + lower@.take(j as int),
            decreases lower@.len() - j,
        {
            push_char(&mut result, lower[j]);
            proof {
                assert(lower@.take(j as int + 1) =~= lower@.take(j as int).push(lower@[j as int]));
            }
            j = j + 1;
        }
        proof {
            let next = s@.take(i as int + 1);
            assert(next.drop_last() =~= prefix@);
            assert(next.last() == ch);
            assert(lower@.take(j as int) =~= lower@);
        }
        first = false;
    }
    proof {
        assert(s@.take(s@.len() as int) =~= s@);
    }
    result
}

} // verus!
