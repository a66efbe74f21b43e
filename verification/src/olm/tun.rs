//! The interface name in a TUN request.
use vstd::prelude::*;
use vstd::utf8::{encode_utf8, is_ascii_chars, is_ascii_chars_encode_utf8};

verus! {

/// The name field for some bytes of a name: the first fifteen at most, then zeros.
pub open spec fn name_bytes(name: Seq<u8>) -> Seq<u8> {
    Seq::new(
        16,
        |i: int|
            if i < 15 && i < name.len() {
                name[i]
            } else {
                0u8
            },
    )
}

/// The characters up to the first zero byte, each byte one character.
pub open spec fn name_chars(field: Seq<u8>) -> Seq<char>
    decreases field.len(),
{
    if field.len() == 0 || field[0] == 0 {
        seq![]
    } else {
        seq![field[0] as char] + name_chars(field.drop_first())
    }
}

/// The name field of a request for an interface of this name.
pub fn name_field(name: &str) -> (r: [u8; 16])
    ensures
        r@ == name_bytes(encode_utf8(name@)),
{
    let bytes = name.as_bytes();
    let n: usize = if bytes.len() < 15 {
        bytes.len()
    } else {
        15
    };
    let mut r: [u8; 16] = [0;16];
    for i in 0..n
        invariant
            n <= 15,
            n <= bytes@.len(),
            forall|j: int| 0 <= j < i ==> r@[j] == bytes@[j],
            forall|j: int| i <= j < 16 ==> r@[j] == 0,
    {
        r[i] = bytes[i];
    }
    assert(r@ =~= name_bytes(bytes@));
    r
}

/// The interface name that the kernel assigned, out of the name field.
pub fn assigned_name(field: &[u8; 16]) -> (r: String)
    ensures
        r@ == name_chars(field@),
{
    let mut r = String::new();
    let mut i: usize = 0;
    assert(field@.skip(0) =~= field@);
    while i < 16 && field[i] != 0
        invariant
            i <= 16,
            r@ + name_chars(field@.skip(i as int)) == name_chars(field@),
        decreases 16 - i,
    {
        let ghost before = r@;
        let ghost rest = field@.skip(i as int);
        assert(rest.drop_first() =~= field@.skip(i + 1));
        r.push(field[i] as char);
        assert(r@ + name_chars(rest.drop_first()) =~= before + (seq![rest[0] as char] + name_chars(
            rest.drop_first(),
        )));
        i += 1;
    }
    assert(name_chars(field@.skip(i as int)) =~= seq![]);
    assert(r@ + Seq::<char>::empty() =~= r@);
    r
}

/// A name of ASCII characters other than NUL that fits is read back from its field.
pub proof fn law_name_is_read_back(name: Seq<char>)
    requires
        is_ascii_chars(name),
        name.len() <= 15,
        forall|i: int| 0 <= i < name.len() ==> #[trigger] name[i] != '\0',
    ensures
        name_chars(name_bytes(encode_utf8(name))) == name,
{
    is_ascii_chars_encode_utf8(name);
    let field = name_bytes(encode_utf8(name));
    assert forall|i: int| 0 <= i < name.len() implies #[trigger] stands_for(field, name, i) by {
        assert(name[i] != '\0');
        assert(field[i] == name[i] as u8);
    }
    lemma_chars_read(name, field);
}

spec fn stands_for(field: Seq<u8>, name: Seq<char>, i: int) -> bool {
    field[i] != 0 && field[i] as char == name[i]
}

proof fn lemma_chars_read(name: Seq<char>, field: Seq<u8>)
    requires
        name.len() < field.len(),
        field[name.len() as int] == 0,
        forall|i: int| 0 <= i < name.len() ==> #[trigger] stands_for(field, name, i),
    ensures
        name_chars(field) == name,
    decreases name.len(),
{
    if name.len() > 0 {
        let rest = name.drop_first();
        let behind = field.drop_first();
        assert forall|i: int| 0 <= i < rest.len() implies #[trigger] stands_for(behind, rest, i) by {
            assert(stands_for(field, name, i + 1));
        }
        lemma_chars_read(rest, behind);
        assert(stands_for(field, name, 0));
        assert(seq![name[0]] + rest =~= name);
    } else {
        assert(name_chars(field) =~= name);
    }
}

/// A name field has sixteen bytes: the first fifteen of the name at most, each in its
/// place, and zeros behind them.
pub proof fn law_name_field_ends_in_zero(name: Seq<u8>, i: int)
    requires
        0 <= i < 16,
    ensures
        name_bytes(name).len() == 16,
        i < name.len() && i < 15 ==> name_bytes(name)[i] == name[i],
        i >= name.len() || i == 15 ==> name_bytes(name)[i] == 0,
{
}

/// What is read from a field is one character for each byte before the first zero.
pub proof fn law_name_ends_at_the_first_zero(a: Seq<u8>, b: Seq<u8>)
    requires
        forall|i: int| 0 <= i < a.len() ==> #[trigger] a[i] != 0,
    ensures
        name_chars(a + seq![0u8] + b) == a.map_values(|x: u8| x as char),
        name_chars(a) == a.map_values(|x: u8| x as char),
    decreases a.len(),
{
    let read = a.map_values(|x: u8| x as char);
    let s = a + seq![0u8] + b;
    if a.len() == 0 {
        assert(read =~= Seq::empty());
        assert(s[0] == 0);
    } else {
        let rest = a.drop_first();
        assert forall|i: int| 0 <= i < rest.len() implies #[trigger] rest[i] != 0 by {
            assert(rest[i] == a[i + 1]);
        }
        law_name_ends_at_the_first_zero(rest, b);
        assert(a[0] != 0);
        assert(s[0] == a[0]);
        assert(s.drop_first() =~= rest + seq![0u8] + b);
        assert(seq![a[0] as char] + rest.map_values(|x: u8| x as char) =~= read);
    }
}

} // verus!
