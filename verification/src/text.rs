use vstd::prelude::*;

verus! {

/// The character of a decimal digit.
pub open spec fn digit_char(d: nat) -> char {
    (48 + d) as char
}

/// The decimal digits of a natural number, most significant first, with no
/// leading zeros (zero is `"0"`).
pub open spec fn decimal(n: nat) -> Seq<char>
    decreases n,
{
    if n < 10 {
        seq![digit_char(n)]
    } else {
        decimal(n / 10).push(digit_char(n % 10))
    }
}

/// The decimal form of an integer: a minus sign for negatives, then the
/// digits of its magnitude.
pub open spec fn signed_decimal(v: int) -> Seq<char> {
    if v < 0 {
        seq!['-'] + decimal((-v) as nat)
    } else {
        decimal(v as nat)
    }
}

/// Parts joined with `sep` between neighbours.
pub open spec fn joined(parts: Seq<Seq<char>>, sep: Seq<char>) -> Seq<char>
    decreases parts.len(),
{
    if parts.len() == 0 {
        Seq::empty()
    } else if parts.len() == 1 {
        parts[0]
    } else {
        joined(parts.drop_last(), sep) + sep + parts.last()
    }
}

/// The character views of a list of string slices.
pub open spec fn str_views(parts: Seq<&str>) -> Seq<Seq<char>> {
    parts.map_values(|s: &str| s@)
}

/// The number of bytes a text takes in UTF-8.
pub open spec fn utf8_len(s: Seq<char>) -> nat {
    vstd::utf8::encode_utf8(s).len()
}

/// `String::len`: the number of bytes the string takes in UTF-8. A string
/// in memory never holds more bytes than `usize` counts.
#[verifier::external_body]
pub(crate) fn byte_len(s: &String) -> (n: usize)
    ensures
        n as nat == utf8_len(s@),
{
    s.len()
}

/// `String::push`: the string with one more character at the end.
#[verifier::external_body]
pub(crate) fn push_char(s: &mut String, c: char)
    ensures
        final(s)@ == old(s)@.push(c),
{
    s.push(c);
}

/// Append the decimal digits of `n`.
pub fn push_decimal(s: &mut String, n: u64)
    ensures
        final(s)@ == old(s)@ + decimal(n as nat),
    decreases n,
{
    if n >= 10 {
        push_decimal(s, n / 10);
    }
    let d = (n % 10) as u8;
    let c = (48u8 + d) as char;
    push_char(s, c);
    proof {
        if n >= 10 {
            assert(decimal(n as nat) == decimal((n / 10) as nat).push(digit_char((n % 10) as nat)));
        }
    }
    assert(s@ =~= old(s)@ + decimal(n as nat));
}


/// Append the decimal form of `v`.
pub fn push_signed_decimal(s: &mut String, v: i64)
    ensures
        final(s)@ == old(s)@ + signed_decimal(v as int),
{
    if v < 0 {
        push_char(s, '-');
        let magnitude: u64 = (-(v as i128)) as u64;
        push_decimal(s, magnitude);
        assert(s@ =~= old(s)@ + signed_decimal(v as int));
    } else {
        push_decimal(s, v as u64);
    }
}

/// Append each part, with `sep` between neighbours.
pub fn push_joined(s: &mut String, parts: &Vec<&str>, sep: &str)
    ensures
        final(s)@ == old(s)@ + joined(str_views(parts@), sep@),
{
    let n = parts.len();
    let ghost views = str_views(parts@);
    let mut i: usize = 0;
    assert(views.take(0) =~= Seq::<Seq<char>>::empty());
    while i < n
        invariant
            n == parts@.len(),
            views == str_views(parts@),
            views.len() == n,
            i <= n,
            s@ == old(s)@ + joined(views.take(i as int), sep@),
        decreases n - i,
    {
        let ghost before = s@;
        if i > 0 {
            s.append(sep);
        }
        s.append(parts[i]);
        proof {
            let t = views.take(i as int + 1);
            assert(t.drop_last() =~= views.take(i as int));
            assert(t.last() == parts@[i as int]@);
            if i == 0 {
                assert(t.len() == 1);
                assert(joined(views.take(i as int), sep@) =~= Seq::<char>::empty());
            }
            assert(s@ =~= old(s)@ + joined(t, sep@));
        }
        i = i + 1;
    }
    assert(views.take(n as int) =~= views);
}

/// Parts joined with `sep` between neighbours.
pub fn join(parts: &Vec<&str>, sep: &str) -> (r: String)
    ensures
        r@ == joined(str_views(parts@), sep@),
{
    let mut s = String::new();
    push_joined(&mut s, parts, sep);
    assert(s@ =~= joined(str_views(parts@), sep@));
    s
}

/// The UTF-8 length of a concatenation is the sum of the lengths.
pub proof fn lemma_utf8_len_concat(a: Seq<char>, b: Seq<char>)
    ensures
        utf8_len(a + b) == utf8_len(a) + utf8_len(b),
    decreases a.len(),
{
    if a.len() > 0 {
        assert((a + b).drop_first() =~= a.drop_first() + b);
        lemma_utf8_len_concat(a.drop_first(), b);
        assert((a + b)[0] == a[0]);
    } else {
        assert(a + b =~= b);
    }
}


/// The character view of an optional string slice.
pub open spec fn opt_view(o: Option<&str>) -> Option<Seq<char>> {
    match o {
        Some(p) => Some(p@),
        None => None,
    }
}

/// A qualified name: an optional leading prefix, the namespace segments and
/// the name, joined with `sep`.
pub open spec fn name_path(
    prefix: Option<Seq<char>>,
    namespace: Seq<Seq<char>>,
    name: Seq<char>,
    sep: Seq<char>,
) -> Seq<char> {
    let head = match prefix {
        Some(p) => seq![p],
        None => Seq::empty(),
    };
    joined(head + namespace + seq![name], sep)
}

/// A qualified name: an optional leading prefix, the namespace segments and
/// the name, joined with `sep`.
pub fn format_name_path(prefix: Option<&str>, namespace: &[&str], name: &str, sep: &str) -> (r: String)
    ensures
        r@ == name_path(opt_view(prefix), str_views(namespace@), name@, sep@),
{
    let mut parts: Vec<&str> = Vec::new();
    match prefix {
        Some(p) => parts.push(p),
        None => {},
    }
    let ghost base = parts@;
    let n = namespace.len();
    let mut i: usize = 0;
    while i < n
        invariant
            n == namespace@.len(),
            i <= n,
            parts@ == base + namespace@.take(i as int),
        decreases n - i,
    {
        parts.push(namespace[i]);
        assert(namespace@.take(i as int + 1) =~= namespace@.take(i as int).push(namespace@[i as int]));
        i = i + 1;
    }
    parts.push(name);
    let mut s = String::new();
    push_joined(&mut s, &parts, sep);
    proof {
        let head = match prefix {
            Some(p) => seq![p@],
            None => Seq::<Seq<char>>::empty(),
        };
        assert(namespace@.take(n as int) =~= namespace@);
        assert(str_views(parts@) =~= head + str_views(namespace@) + seq![name@]);
        assert(s@ =~= joined(str_views(parts@), sep@));
    }
    s
}


/// Joining a part in front: the part, the separator, then the rest joined.
pub proof fn lemma_joined_prepend(a: Seq<char>, rest: Seq<Seq<char>>, sep: Seq<char>)
    ensures
        joined(seq![a] + rest, sep) == if rest.len() == 0 {
            a
        } else {
            a + sep + joined(rest, sep)
        },
    decreases rest.len(),
{
    let all = seq![a] + rest;
    if rest.len() == 0 {
        assert(all =~= seq![a]);
    } else {
        assert(all.drop_last() =~= seq![a] + rest.drop_last());
        assert(all.last() == rest.last());
        lemma_joined_prepend(a, rest.drop_last(), sep);
        if rest.len() == 1 {
            assert(rest.drop_last() =~= Seq::<Seq<char>>::empty());
            assert(joined(rest, sep) == rest[0]);
        }
        assert(joined(all, sep) =~= a + sep + joined(rest, sep));
    }
}


/// The character views of a list of strings.
pub open spec fn string_views(parts: Seq<String>) -> Seq<Seq<char>> {
    parts.map_values(|s: String| s@)
}

/// Append each string, with `sep` between neighbours.
pub fn push_joined_strings(s: &mut String, parts: &Vec<String>, sep: &str)
    ensures
        final(s)@ == old(s)@ + joined(string_views(parts@), sep@),
{
    let n = parts.len();
    let ghost views = string_views(parts@);
    let mut i: usize = 0;
    assert(views.take(0) =~= Seq::<Seq<char>>::empty());
    while i < n
        invariant
            n == parts@.len(),
            views == string_views(parts@),
            views.len() == n,
            i <= n,
            s@ == old(s)@ + joined(views.take(i as int), sep@),
        decreases n - i,
    {
        if i > 0 {
            s.append(sep);
        }
        s.append(parts[i].as_str());
        proof {
            let t = views.take(i as int + 1);
            assert(t.drop_last() =~= views.take(i as int));
            assert(t.last() == parts@[i as int]@);
            if i == 0 {
                assert(t.len() == 1);
                assert(joined(views.take(i as int), sep@) =~= Seq::<char>::empty());
            }
            assert(s@ =~= old(s)@ + joined(t, sep@));
        }
        i = i + 1;
    }
    assert(views.take(n as int) =~= views);
}

} // verus!
