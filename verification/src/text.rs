use vstd::prelude::*;
use vstd::arithmetic::div_mod::*;
use vstd::arithmetic::power2::*;
use vstd::string::*;
use vstd::utf8::*;

verus! {

/// Appends one character to a string.
///
/// Calls `String::push`, which appends the character at the end and changes
/// nothing else.
#[verifier::external_body]
pub(crate) fn push_char(s: &mut String, c: char)
    ensures
        final(s)@ == old(s)@.push(c),
{
    s.push(c);
}

/// Appends a string slice to a string.
pub(crate) fn push_str(s: &mut String, t: &str)
    ensures
        final(s)@ == old(s)@ + t@,
{
    s.append(t);
}

/// A new string holding the characters of `t`.
pub(crate) fn string_of(t: &str) -> (res: String)
    ensures
        res@ == t@,
{
    String::from_str(t)
}

/// The character for a digit value below sixteen, upper-case for the letters.
pub open spec fn digit_char(d: nat) -> char {
    if d < 10 {
        (48 + d) as char
    } else {
        (55 + d) as char
    }
}

/// The digits of `v` in base `base`, most significant first, without
/// leading zeros (zero is the single digit `0`).
pub open spec fn digits(v: nat, base: nat) -> Seq<char>
    recommends
        2 <= base <= 16,
    decreases v,
{
    if base < 2 || v < base {
        seq![digit_char(v)]
    } else {
        proof {
            lemma_div_decreases(v as int, base as int);
        }
        digits(v / base, base).push(digit_char(v % base))
    }
}

/// `n` zero characters.
pub open spec fn zeros(n: nat) -> Seq<char> {
    Seq::new(n, |i: int| '0')
}

/// The digits of `v` in base `base`, padded on the left with zeros to at
/// least `width` characters.
pub open spec fn padded_digits(v: nat, base: nat, width: nat) -> Seq<char> {
    let d = digits(v, base);
    if d.len() < width {
        zeros((width - d.len()) as nat) + d
    } else {
        d
    }
}

/// Upper-case hexadecimal digits of `v`, padded to `width`.
pub open spec fn hex(v: nat, width: nat) -> Seq<char> {
    padded_digits(v, 16, width)
}

/// Decimal digits of `v`.
pub open spec fn dec(v: nat) -> Seq<char> {
    digits(v, 10)
}

/// Binary digits of `v`.
pub open spec fn bin(v: nat) -> Seq<char> {
    digits(v, 2)
}

fn digit_char_exec(d: u64) -> (c: char)
    requires
        d < 16,
    ensures
        c == digit_char(d as nat),
{
    if d < 10 {
        ((48 + d) as u8) as char
    } else {
        ((55 + d) as u8) as char
    }
}

fn push_digits(s: &mut String, v: u64, base: u64)
    requires
        2 <= base <= 16,
    ensures
        final(s)@ == old(s)@ + digits(v as nat, base as nat),
    decreases v,
{
    if v >= base {
        proof {
            lemma_div_decreases(v as int, base as int);
        }
        push_digits(s, v / base, base);
    }
    let c = digit_char_exec(v % base);
    push_char(s, c);
    proof {
        if v < base {
            lemma_small_mod(v as nat, base as nat);
        }
    }
}

/// The number of digits of `v` in base `base`.
fn digit_count(v: u64, base: u64) -> (res: usize)
    requires
        2 <= base <= 16,
    ensures
        res as nat == digits(v as nat, base as nat).len(),
        res <= 64,
    decreases v,
{
    if v < base {
        1
    } else {
        proof {
            lemma_div_decreases(v as int, base as int);
        }
        let n = digit_count(v / base, base);
        proof {
            lemma_digits_len_u64(v, base as nat);
        }
        n + 1
    }
}

/// A number has at most as many digits as it has bits.
proof fn lemma_digits_len_log(v: nat, base: nat)
    requires
        2 <= base <= 16,
    ensures
        digits(v, base).len() == 1 || pow2((digits(v, base).len() - 1) as nat) <= v,
    decreases v,
{
    if v >= base {
        lemma_div_decreases(v as int, base as int);
        lemma_digits_len_log(v / base, base);
        lemma2_to64();
        let k = (digits(v / base, base).len() - 1) as nat;
        assert(v >= 2 * (v / base)) by (nonlinear_arith)
            requires
                base >= 2,
                v >= base,
        ;
        lemma_pow2_unfold(k + 1);
    } else {
        lemma2_to64();
    }
}

/// A 64-bit number has at most 64 digits.
proof fn lemma_digits_len_u64(v: u64, base: nat)
    requires
        2 <= base <= 16,
    ensures
        digits(v as nat, base).len() <= 64,
{
    lemma_digits_len_log(v as nat, base);
    lemma2_to64();
    let k = (digits(v as nat, base).len() - 1) as nat;
    if k >= 64 && digits(v as nat, base).len() != 1 {
        if k > 64 {
            lemma_pow2_strictly_increases(64, k);
        }
    }
}

/// Appends `n` zero characters.
fn push_zeros(s: &mut String, n: usize)
    ensures
        final(s)@ == old(s)@ + zeros(n as nat),
{
    let ghost start = s@;
    let mut i: usize = 0;
    while i < n
        invariant
            i <= n,
            s@ == start + zeros(i as nat),
        decreases n - i,
    {
        push_char(s, '0');
        i = i + 1;
        assert(s@ =~= start + zeros(i as nat));
    }
}

/// Appends the digits of `v` in base `base`, padded with zeros to `width`.
pub(crate) fn push_padded(s: &mut String, v: u64, base: u64, width: usize)
    requires
        2 <= base <= 16,
    ensures
        final(s)@ == old(s)@ + padded_digits(v as nat, base as nat, width as nat),
{
    let n = digit_count(v, base);
    let ghost start = s@;
    if n < width {
        push_zeros(s, width - n);
    }
    push_digits(s, v, base);
    assert(s@ =~= start + padded_digits(v as nat, base as nat, width as nat));
}

/// A new string holding `prefix`, then the digits of `v` in base `base`
/// padded to `width`, then `suffix`.
pub(crate) fn number_between(prefix: &str, v: u64, base: u64, width: usize, suffix: &str) -> (res:
    String)
    requires
        2 <= base <= 16,
    ensures
        res@ == prefix@ + padded_digits(v as nat, base as nat, width as nat) + suffix@,
{
    let mut s = string_of(prefix);
    push_padded(&mut s, v, base, width);
    push_str(&mut s, suffix);
    s
}

/// Byte-wise lexicographic order, the order in which `str` values compare.
pub open spec fn lex_lt(a: Seq<u8>, b: Seq<u8>) -> bool
    decreases a.len(),
{
    if b.len() == 0 {
        false
    } else if a.len() == 0 {
        true
    } else if a[0] != b[0] {
        a[0] < b[0]
    } else {
        lex_lt(a.drop_first(), b.drop_first())
    }
}

/// The order of strings: that of their UTF-8 bytes.
pub open spec fn name_lt(a: Seq<char>, b: Seq<char>) -> bool {
    lex_lt(encode_utf8(a), encode_utf8(b))
}

/// Strictly increasing in the order of strings, so without repetition.
pub open spec fn sorted_names(s: Seq<Seq<char>>) -> bool {
    forall|i: int, j: int| 0 <= i < j < s.len() ==> name_lt(#[trigger] s[i], #[trigger] s[j])
}

/// The strings of `list` with `sep` between each two.
pub open spec fn join_names(list: Seq<Seq<char>>, sep: Seq<char>) -> Seq<char>
    decreases list.len(),
{
    if list.len() == 0 {
        Seq::empty()
    } else if list.len() == 1 {
        list[0]
    } else {
        join_names(list.drop_last(), sep) + sep + list.last()
    }
}

proof fn lemma_lex_irreflexive(a: Seq<u8>)
    ensures
        !lex_lt(a, a),
    decreases a.len(),
{
    if a.len() > 0 {
        lemma_lex_irreflexive(a.drop_first());
    }
}

proof fn lemma_lex_transitive(a: Seq<u8>, b: Seq<u8>, c: Seq<u8>)
    requires
        lex_lt(a, b),
        lex_lt(b, c),
    ensures
        lex_lt(a, c),
    decreases a.len(),
{
    if a.len() > 0 && a[0] == b[0] && b[0] == c[0] {
        lemma_lex_transitive(a.drop_first(), b.drop_first(), c.drop_first());
    }
}

proof fn lemma_lex_total(a: Seq<u8>, b: Seq<u8>)
    ensures
        lex_lt(a, b) || lex_lt(b, a) || a == b,
    decreases a.len(),
{
    if a.len() > 0 && b.len() > 0 && a[0] == b[0] {
        lemma_lex_total(a.drop_first(), b.drop_first());
        if a.drop_first() == b.drop_first() {
            assert(a =~= seq![a[0]] + a.drop_first());
            assert(b =~= seq![b[0]] + b.drop_first());
        }
    } else if a.len() == 0 && b.len() == 0 {
        assert(a =~= b);
    }
}

proof fn lemma_lex_asymmetric(a: Seq<u8>, b: Seq<u8>)
    requires
        lex_lt(a, b),
    ensures
        !lex_lt(b, a),
{
    if lex_lt(b, a) {
        lemma_lex_transitive(a, b, a);
        lemma_lex_irreflexive(a);
    }
}

/// Strings with the same UTF-8 bytes are the same string.
proof fn lemma_encode_injective(a: Seq<char>, b: Seq<char>)
    requires
        encode_utf8(a) == encode_utf8(b),
    ensures
        a == b,
{
    encode_utf8_decode_utf8(a);
    encode_utf8_decode_utf8(b);
}

proof fn lemma_lex_skip(a: Seq<u8>, b: Seq<u8>, i: int)
    requires
        0 <= i <= a.len(),
        i <= b.len(),
        a.subrange(0, i) == b.subrange(0, i),
    ensures
        lex_lt(a, b) == lex_lt(a.skip(i), b.skip(i)),
    decreases i,
{
    if i > 0 {
        assert(a[0] == a.subrange(0, i)[0]);
        assert(b[0] == b.subrange(0, i)[0]);
        assert(a.drop_first().subrange(0, i - 1) =~= a.subrange(0, i).drop_first());
        assert(b.drop_first().subrange(0, i - 1) =~= b.subrange(0, i).drop_first());
        lemma_lex_skip(a.drop_first(), b.drop_first(), i - 1);
        assert(a.drop_first().skip(i - 1) =~= a.skip(i));
        assert(b.drop_first().skip(i - 1) =~= b.skip(i));
    } else {
        assert(a.skip(0) =~= a);
        assert(b.skip(0) =~= b);
    }
}

/// Compares two byte strings: negative, zero or positive as `a` comes
/// before, equals or comes after `b`.
fn compare_bytes(a: &[u8], b: &[u8]) -> (res: i8)
    ensures
        res < 0 <==> lex_lt(a@, b@),
        res == 0 <==> a@ == b@,
        res > 0 <==> lex_lt(b@, a@),
{
    let alen = a.len();
    let blen = b.len();
    let mut i: usize = 0;
    while i < alen && i < blen
        invariant
            i <= alen == a@.len(),
            i <= blen == b@.len(),
            a@.subrange(0, i as int) == b@.subrange(0, i as int),
        decreases alen - i,
    {
        if a[i] != b[i] {
            proof {
                lemma_lex_skip(a@, b@, i as int);
                lemma_lex_skip(b@, a@, i as int);
                assert(a@.skip(i as int)[0] == a@[i as int]);
                assert(b@.skip(i as int)[0] == b@[i as int]);
            }
            if a[i] < b[i] {
                return -1;
            } else {
                return 1;
            }
        }
        assert(a@.subrange(0, i + 1) =~= a@.subrange(0, i as int).push(a@[i as int]));
        assert(b@.subrange(0, i + 1) =~= b@.subrange(0, i as int).push(b@[i as int]));
        i = i + 1;
    }
    proof {
        lemma_lex_skip(a@, b@, i as int);
        lemma_lex_skip(b@, a@, i as int);
        if alen == blen {
            assert(a@ =~= a@.subrange(0, i as int));
            assert(b@ =~= b@.subrange(0, i as int));
        }
    }
    if alen < blen {
        -1
    } else if alen > blen {
        1
    } else {
        0
    }
}

/// A set of names kept in the order of strings, each once.
pub struct NameSet {
    items: Vec<String>,
}

impl NameSet {
    /// The names, in order.
    pub closed spec fn names(&self) -> Seq<Seq<char>> {
        self.items@.map_values(|s: String| s@)
    }

    /// The names are strictly increasing.
    pub open spec fn wf(&self) -> bool {
        sorted_names(self.names())
    }

    pub fn new() -> (res: NameSet)
        ensures
            res.wf(),
            res.names() == Seq::<Seq<char>>::empty(),
    {
        let res = NameSet { items: Vec::new() };
        assert(res.names() =~= Seq::<Seq<char>>::empty());
        res
    }

    pub fn is_empty(&self) -> (res: bool)
        ensures
            res == (self.names().len() == 0),
    {
        self.items.len() == 0
    }

    /// Adds a name unless it is there already.
    pub fn insert(&mut self, name: String)
        requires
            old(self).wf(),
        ensures
            final(self).wf(),
            final(self).names().to_set() == old(self).names().to_set().insert(name@),
    {
        let ghost old_names = self.names();
        let len = self.items.len();
        let mut i: usize = 0;
        let mut found = false;
        while i < len
            invariant_except_break
                i <= len == self.items@.len(),
                self.names() == old_names,
                !found,
                forall|j: int| 0 <= j < i ==> name_lt(#[trigger] old_names[j], name@),
            ensures
                i <= len == self.items@.len(),
                self.names() == old_names,
                forall|j: int| 0 <= j < i ==> name_lt(#[trigger] old_names[j], name@),
                i < len ==> !name_lt(old_names[i as int], name@),
                found ==> i < len && old_names[i as int] == name@,
                !found && i < len ==> name_lt(name@, old_names[i as int]),
            decreases len - i,
        {
            let c = compare_bytes(self.items[i].as_str().as_bytes(), name.as_str().as_bytes());
            assert(old_names[i as int] == self.items@[i as int]@);
            if c == 0 {
                proof {
                    lemma_encode_injective(old_names[i as int], name@);
                    lemma_lex_irreflexive(encode_utf8(name@));
                }
                found = true;
                break;
            }
            if c > 0 {
                proof {
                    lemma_lex_asymmetric(encode_utf8(name@), encode_utf8(old_names[i as int]));
                }
                break;
            }
            i = i + 1;
        }
        if found {
            assert(old_names.to_set().insert(name@) =~= old_names.to_set()) by {
                assert(old_names.to_set().contains(old_names[i as int]));
            }
            return;
        }
        self.items.insert(i, name);
        proof {
            let new_names = self.names();
            assert(new_names =~= old_names.insert(i as int, name@));
            assert forall|a: int, b: int| 0 <= a < b < new_names.len() implies name_lt(
                #[trigger] new_names[a],
                #[trigger] new_names[b],
            ) by {
                if b < i {
                } else if b == i {
                } else if a < i {
                    // a before the new name, b after it
                    assert(new_names[b] == old_names[b - 1]);
                    if b - 1 > i {
                        assert(name_lt(old_names[i as int], old_names[b - 1]));
                        lemma_lex_transitive(
                            encode_utf8(name@),
                            encode_utf8(old_names[i as int]),
                            encode_utf8(old_names[b - 1]),
                        );
                    }
                    lemma_lex_transitive(
                        encode_utf8(new_names[a]),
                        encode_utf8(name@),
                        encode_utf8(new_names[b]),
                    );
                } else if a == i {
                    assert(new_names[b] == old_names[b - 1]);
                    if b - 1 > i {
                        assert(name_lt(old_names[i as int], old_names[b - 1]));
                        lemma_lex_transitive(
                            encode_utf8(name@),
                            encode_utf8(old_names[i as int]),
                            encode_utf8(old_names[b - 1]),
                        );
                    }
                } else {
                    assert(new_names[a] == old_names[a - 1]);
                    assert(new_names[b] == old_names[b - 1]);
                }
            }
            assert(new_names.to_set() =~= old_names.to_set().insert(name@)) by {
                assert forall|x: Seq<char>| new_names.to_set().contains(x) implies old_names.to_set().insert(name@).contains(x) by {
                    let k = choose|k: int| 0 <= k < new_names.len() && new_names[k] == x;
                    if k < i {
                        assert(old_names[k] == x);
                    } else if k > i {
                        assert(old_names[k - 1] == x);
                    }
                }
                assert forall|x: Seq<char>| old_names.to_set().insert(name@).contains(x) implies new_names.to_set().contains(x) by {
                    if x == name@ {
                        assert(new_names[i as int] == x);
                    } else {
                        let k = choose|k: int| 0 <= k < old_names.len() && old_names[k] == x;
                        if k < i {
                            assert(new_names[k] == x);
                        } else {
                            assert(new_names[k + 1] == x);
                        }
                    }
                }
            }
        }
    }

    /// The names with `sep` between each two.
    pub fn join(&self, sep: &str) -> (res: String)
        ensures
            res@ == join_names(self.names(), sep@),
    {
        let mut s = String::new();
        let len = self.items.len();
        let ghost names = self.names();
        let mut i: usize = 0;
        while i < len
            invariant
                i <= len == names.len(),
                names == self.names(),
                s@ == join_names(names.take(i as int), sep@),
            decreases len - i,
        {
            assert(names[i as int] == self.items@[i as int]@);
            if i > 0 {
                push_str(&mut s, sep);
            }
            push_str(&mut s, self.items[i].as_str());
            assert(names.take(i + 1).drop_last() =~= names.take(i as int));
            i = i + 1;
        }
        assert(names.take(len as int) =~= names);
        s
    }
}

/// Two sorted lists of names that hold the same names are the same list:
/// the order of strings and the set of names fix the list.
pub proof fn lemma_sorted_names_unique(a: Seq<Seq<char>>, b: Seq<Seq<char>>)
    requires
        sorted_names(a),
        sorted_names(b),
        a.to_set() == b.to_set(),
    ensures
        a == b,
    decreases a.len(),
{
    if a.len() == 0 {
        if b.len() > 0 {
            assert(b.to_set().contains(b[0]));
        }
        assert(a =~= b);
    } else if b.len() == 0 {
        assert(a.to_set().contains(a[0]));
    } else {
        // the last elements are the greatest of each list, so equal
        let la = a.last();
        let lb = b.last();
        assert(a.to_set().contains(la));
        assert(b.to_set().contains(lb));
        let ka = choose|k: int| 0 <= k < a.len() && a[k] == lb;
        let kb = choose|k: int| 0 <= k < b.len() && b[k] == la;
        if la != lb {
            if ka < a.len() - 1 {
                assert(name_lt(a[ka], la));
            }
            if kb < b.len() - 1 {
                assert(name_lt(b[kb], lb));
            }
            lemma_lex_asymmetric(encode_utf8(lb), encode_utf8(la));
            assert(ka != a.len() - 1);
            assert(kb != b.len() - 1);
            assert(false);
        }
        let a2 = a.drop_last();
        let b2 = b.drop_last();
        assert(a2.to_set() =~= b2.to_set()) by {
            assert forall|x: Seq<char>| a2.to_set().contains(x) implies b2.to_set().contains(x) by {
                let k = choose|k: int| 0 <= k < a2.len() && a2[k] == x;
                assert(a.to_set().contains(x));
                let j = choose|j: int| 0 <= j < b.len() && b[j] == x;
                assert(name_lt(a[k], la));
                if j == b.len() - 1 {
                    lemma_lex_irreflexive(encode_utf8(la));
                }
                assert(b2[j] == x);
            }
            assert forall|x: Seq<char>| b2.to_set().contains(x) implies a2.to_set().contains(x) by {
                let k = choose|k: int| 0 <= k < b2.len() && b2[k] == x;
                assert(b.to_set().contains(x));
                let j = choose|j: int| 0 <= j < a.len() && a[j] == x;
                assert(name_lt(b[k], lb));
                if j == a.len() - 1 {
                    lemma_lex_irreflexive(encode_utf8(lb));
                }
                assert(a2[j] == x);
            }
        }
        lemma_sorted_names_unique(a2, b2);
        assert(a =~= a2.push(la));
        assert(b =~= b2.push(lb));
    }
}

/// Whether two string slices hold the same characters.
pub fn str_eq(a: &str, b: &str) -> (res: bool)
    ensures
        res == (a@ == b@),
{
    let c = compare_bytes(a.as_bytes(), b.as_bytes());
    proof {
        if c == 0 {
            lemma_encode_injective(a@, b@);
        }
    }
    c == 0
}

/// The string slice with the given UTF-8 bytes, if they are valid UTF-8.
///
/// Calls `std::str::from_utf8`, which succeeds exactly on valid UTF-8 and
/// then gives a slice over the same bytes.
#[verifier::external_body]
pub(crate) fn utf8_str(bytes: &[u8]) -> (res: Option<&str>)
    ensures
        res is Some <==> valid_utf8(bytes@),
        res matches Some(s) ==> s.spec_bytes() == bytes@,
{
    std::str::from_utf8(bytes).ok()
}

/// The characters with the Unicode property `White_Space`.
pub open spec fn is_white_space(c: char) -> bool {
    let u = c as u32;
    (0x9 <= u <= 0xd) || u == 0x20 || u == 0x85 || u == 0xa0 || u == 0x1680 || (0x2000 <= u
        <= 0x200a) || u == 0x2028 || u == 0x2029 || u == 0x202f || u == 0x205f || u == 0x3000
}

/// `s` without its leading white space.
pub open spec fn trim_start_spec(s: Seq<char>) -> Seq<char>
    decreases s.len(),
{
    if s.len() > 0 && is_white_space(s[0]) {
        trim_start_spec(s.drop_first())
    } else {
        s
    }
}

/// `s` without its trailing white space.
pub open spec fn trim_end_spec(s: Seq<char>) -> Seq<char>
    decreases s.len(),
{
    if s.len() > 0 && is_white_space(s.last()) {
        trim_end_spec(s.drop_last())
    } else {
        s
    }
}

/// `s` without leading and trailing white space.
pub open spec fn trim_spec(s: Seq<char>) -> Seq<char> {
    trim_end_spec(trim_start_spec(s))
}

/// The slice without leading and trailing white space.
///
/// Calls `str::trim`, which removes the leading and trailing characters
/// that have the Unicode property `White_Space`.
#[verifier::external_body]
pub(crate) fn trim_str(s: &str) -> (res: &str)
    ensures
        res@ == trim_spec(s@),
{
    s.trim()
}

/// The value of a digit character in base `radix` (at most 36), if it is
/// a digit of that base: `0`-`9`, then letters of either case from ten.
pub open spec fn digit_value(b: u8, radix: nat) -> Option<nat> {
    let v: int = if 0x30 <= b <= 0x39 {
        b - 0x30
    } else if 0x61 <= b <= 0x7a {
        b - 0x61 + 10
    } else if 0x41 <= b <= 0x5a {
        b - 0x41 + 10
    } else {
        99
    };
    if v < radix {
        Some(v as nat)
    } else {
        None
    }
}

/// The value of a sequence of digits in base `radix`, most significant
/// first; none if a byte is not such a digit. The empty sequence is zero.
pub open spec fn digits_value(b: Seq<u8>, radix: nat) -> Option<nat>
    decreases b.len(),
{
    if b.len() == 0 {
        Some(0)
    } else {
        match (digits_value(b.drop_last(), radix), digit_value(b.last(), radix)) {
            (Some(v), Some(d)) => Some(v * radix + d),
            _ => None,
        }
    }
}

/// How an unsigned 64-bit number is read from text in base `radix`: an
/// optional `+`, then at least one digit; the value must fit in 64 bits.
pub open spec fn parse_u64_spec(b: Seq<u8>, radix: nat) -> Option<nat> {
    if b.len() == 0 || (b.len() == 1 && (b[0] == 0x2b || b[0] == 0x2d)) {
        None
    } else {
        let digits = if b[0] == 0x2b {
            b.drop_first()
        } else {
            b
        };
        match digits_value(digits, radix) {
            Some(v) => if v <= u64::MAX {
                Some(v)
            } else {
                None
            },
            None => None,
        }
    }
}

proof fn lemma_digits_value_grows(b: Seq<u8>, radix: nat, i: int)
    requires
        1 <= radix,
        0 <= i <= b.len(),
        digits_value(b, radix) is Some,
    ensures
        digits_value(b.take(i), radix) is Some,
        digits_value(b.take(i), radix)->0 <= digits_value(b, radix)->0,
    decreases b.len() - i,
{
    if i < b.len() {
        lemma_digits_value_grows(b, radix, i + 1);
        let t = b.take(i + 1);
        assert(t.drop_last() =~= b.take(i));
        let v = digits_value(b.take(i), radix);
        if let Some(vv) = v {
            assert(vv * radix >= vv) by (nonlinear_arith)
                requires
                    radix >= 1,
            ;
        }
    } else {
        assert(b.take(i) =~= b);
    }
}

pub(crate) fn digit_value_exec(b: u8, radix: u64) -> (res: Option<u64>)
    requires
        2 <= radix <= 36,
    ensures
        match digit_value(b, radix as nat) {
            Some(d) => res == Some(d as u64),
            None => res is None,
        },
{
    let v: u64 = if 0x30 <= b && b <= 0x39 {
        (b - 0x30) as u64
    } else if 0x61 <= b && b <= 0x7a {
        (b - 0x61 + 10) as u64
    } else if 0x41 <= b && b <= 0x5a {
        (b - 0x41 + 10) as u64
    } else {
        99
    };
    if v < radix {
        Some(v)
    } else {
        None
    }
}

/// Reads an unsigned 64-bit number from text in base `radix`.
pub fn parse_u64(b: &[u8], radix: u64) -> (res: Option<u64>)
    requires
        2 <= radix <= 36,
    ensures
        match parse_u64_spec(b@, radix as nat) {
            Some(v) => res == Some(v as u64),
            None => res is None,
        },
{
    let len = b.len();
    if len == 0 || (len == 1 && (b[0] == 0x2b || b[0] == 0x2d)) {
        return None;
    }
    let start: usize = if b[0] == 0x2b {
        1
    } else {
        0
    };
    let ghost digits = if b@[0] == 0x2b {
        b@.drop_first()
    } else {
        b@
    };
    assert(digits =~= b@.skip(start as int));
    let mut value: u64 = 0;
    let mut i: usize = start;
    assert(digits.take(0) =~= Seq::<u8>::empty());
    while i < len
        invariant
            start <= i <= len == b@.len(),
            digits == b@.skip(start as int),
            len > 0,
            !(len == 1 && (b@[0] == 0x2b || b@[0] == 0x2d)),
            digits == (if b@[0] == 0x2b {
                b@.drop_first()
            } else {
                b@
            }),
            2 <= radix <= 36,
            digits_value(digits.take(i - start), radix as nat) == Some(value as nat),
        decreases len - i,
    {
        let d = match digit_value_exec(b[i], radix) {
            Some(d) => d,
            None => {
                proof {
                    let t = digits.take(i - start + 1);
                    assert(t.drop_last() =~= digits.take(i - start));
                    assert(t.last() == b@[i as int]);
                    assert(digits_value(t, radix as nat) is None);
                    if digits_value(digits, radix as nat) is Some {
                        lemma_digits_value_grows(digits, radix as nat, i - start + 1);
                    }
                    assert(digits_value(digits, radix as nat) is None);
                    assert(parse_u64_spec(b@, radix as nat) is None);
                }
                return None;
            },
        };
        let ghost t = digits.take(i - start + 1);
        proof {
            assert(t.drop_last() =~= digits.take(i - start));
            assert(t.last() == b@[i as int]);
        }
        let next = match value.checked_mul(radix) {
            Some(m) => m.checked_add(d),
            None => None,
        };
        match next {
            Some(n) => {
                value = n;
            },
            None => {
                proof {
                    assert(value * radix + d > u64::MAX);
                    if digits_value(digits, radix as nat) is Some {
                        lemma_digits_value_grows(digits, radix as nat, i - start + 1);
                    }
                }
                return None;
            },
        }
        i = i + 1;
    }
    assert(digits.take(len - start) =~= digits);
    Some(value)
}

/// In valid UTF-8, a position whose byte is not a continuation byte (or
/// the end) is a character boundary.
pub proof fn lemma_char_boundary_at(b: Seq<u8>, i: int)
    requires
        valid_utf8(b),
        0 <= i <= b.len(),
        i == b.len() || !is_continuation_byte(b[i]),
    ensures
        is_char_boundary(b, i),
    decreases b.len(),
{
    if i > 0 {
        let l = length_of_first_scalar(b);
        if i >= l {
            let rest = pop_first_scalar(b);
            assert(rest.len() == b.len() - l);
            if i < b.len() {
                assert(rest[i - l] == b[i]);
            }
            lemma_char_boundary_at(rest, i - l);
        }
    }
}

/// In valid UTF-8, the byte after an ASCII byte starts a character.
pub proof fn lemma_after_ascii(b: Seq<u8>, i: int)
    requires
        valid_utf8(b),
        0 <= i < b.len(),
        b[i] < 0x80,
        i + 1 < b.len(),
    ensures
        !is_continuation_byte(b[i + 1]),
    decreases b.len(),
{
    let l = length_of_first_scalar(b);
    let rest = pop_first_scalar(b);
    assert(rest.len() == b.len() - l);
    if i == 0 {
        assert(rest[0] == b[1]);
        reveal_with_fuel(valid_utf8, 2);
    } else if i >= l {
        assert(rest[i - l] == b[i]);
        assert(rest[i - l + 1] == b[i + 1]);
        lemma_after_ascii(rest, i - l);
    }
}

/// The part of a string slice between two byte positions, each at the end
/// or at a byte that is not a UTF-8 continuation byte (so at character
/// boundaries).
pub(crate) fn str_slice(s: &str, start: usize, end: usize) -> (res: &str)
    requires
        start <= end <= s.spec_bytes().len(),
        start == s.spec_bytes().len() || !is_continuation_byte(s.spec_bytes()[start as int]),
        end == s.spec_bytes().len() || !is_continuation_byte(s.spec_bytes()[end as int]),
    ensures
        res.spec_bytes() == s.spec_bytes().subrange(start as int, end as int),
{
    let ghost b = s.spec_bytes();
    proof {
        encode_utf8_valid_utf8(s@);
        lemma_char_boundary_at(b, end as int);
    }
    let (head, _) = s.split_at(end);
    proof {
        let hb = head.spec_bytes();
        encode_utf8_valid_utf8(head@);
        if start < end {
            assert(hb[start as int] == b[start as int]);
        }
        lemma_char_boundary_at(hb, start as int);
    }
    let (_, part) = head.split_at(start);
    part
}

/// The UTF-8 encoding of two strings one after the other is the encoding
/// of the first followed by that of the second.
pub proof fn lemma_encode_concat(a: Seq<char>, b: Seq<char>)
    ensures
        encode_utf8(a + b) == encode_utf8(a) + encode_utf8(b),
    decreases a.len(),
{
    if a.len() == 0 {
        assert(a + b =~= b);
        assert(encode_utf8(a) =~= Seq::<u8>::empty());
        assert(encode_utf8(a) + encode_utf8(b) =~= encode_utf8(b));
    } else {
        assert((a + b).drop_first() =~= a.drop_first() + b);
        lemma_encode_concat(a.drop_first(), b);
        assert(encode_utf8(a + b) =~= encode_utf8(a) + encode_utf8(b));
    }
}

/// The number of UTF-8 bytes of a character.
pub open spec fn utf8_len(c: char) -> nat {
    let u = c as u32;
    if u < 0x80 {
        1
    } else if u < 0x800 {
        2
    } else if u < 0x10000 {
        3
    } else {
        4
    }
}

/// The encoding of a character has as many bytes as `utf8_len` says.
pub proof fn lemma_encode_char_len(c: char)
    ensures
        encode_utf8(seq![c]).len() == utf8_len(c),
{
    char_is_scalar(c);
    assert(seq![c].drop_first() =~= Seq::<char>::empty());
    assert(encode_utf8(Seq::<char>::empty()) =~= Seq::<u8>::empty());
    assert(encode_utf8(seq![c]) =~= encode_scalar(c as u32));
}

/// Appending a character adds its UTF-8 bytes.
pub proof fn lemma_encode_push(a: Seq<char>, c: char)
    ensures
        encode_utf8(a.push(c)).len() == encode_utf8(a).len() + utf8_len(c),
{
    assert(a.push(c) =~= a + seq![c]);
    lemma_encode_concat(a, seq![c]);
    lemma_encode_char_len(c);
}

/// The bytes of characters that are all ASCII.
pub open spec fn ascii_bytes(cs: Seq<char>) -> Seq<u8> {
    cs.map_values(|c: char| (c as u32) as u8)
}

/// All characters are ASCII.
pub open spec fn all_ascii_chars(cs: Seq<char>) -> bool {
    forall|i: int| 0 <= i < cs.len() ==> (#[trigger] cs[i] as u32) < 0x80
}

/// The UTF-8 encoding of ASCII characters is one byte per character.
pub proof fn lemma_encode_ascii(cs: Seq<char>)
    requires
        all_ascii_chars(cs),
    ensures
        encode_utf8(cs) == ascii_bytes(cs),
    decreases cs.len(),
{
    if cs.len() == 0 {
        assert(ascii_bytes(cs) =~= Seq::<u8>::empty());
    } else {
        let rest = cs.drop_first();
        assert(all_ascii_chars(rest)) by {
            assert forall|i: int| 0 <= i < rest.len() implies (#[trigger] rest[i] as u32) < 0x80 by {
                assert(rest[i] == cs[i + 1]);
            }
        }
        lemma_encode_ascii(rest);
        let u = cs[0] as u32;
        assert(u < 0x80);
        assert(u < 0x80 ==> (u & 0x7f) as u8 == u as u8) by (bit_vector);
        assert(encode_scalar(u) =~= seq![u as u8]);
        assert(ascii_bytes(cs) =~= seq![u as u8] + ascii_bytes(rest));
    }
}

/// The digits of a number are ASCII digits or upper-case letters below `G`,
/// and there is at least one.
pub proof fn lemma_digits_shape(v: nat, base: nat)
    requires
        2 <= base <= 16,
    ensures
        digits(v, base).len() >= 1,
        forall|i: int|
            0 <= i < digits(v, base).len() ==> {
                let c = #[trigger] digits(v, base)[i] as u32;
                (0x30 <= c <= 0x39 && c < 0x30 + base) || (base > 10 && 0x41 <= c < 0x41 + base
                    - 10)
            },
    decreases v,
{
    if v >= base {
        lemma_div_decreases(v as int, base as int);
        lemma_digits_shape(v / base, base);
    }
}

/// The value of the character of a digit is the digit.
proof fn lemma_digit_char_value(d: nat, radix: nat)
    requires
        d < radix <= 16,
    ensures
        digit_value((digit_char(d) as u32) as u8, radix) == Some(d),
{
}

/// Reading the digits of a number in its base gives the number back.
pub proof fn lemma_digits_value_roundtrip(v: nat, base: nat)
    requires
        2 <= base <= 16,
    ensures
        digits_value(ascii_bytes(digits(v, base)), base) == Some(v),
    decreases v,
{
    let d = digits(v, base);
    if v < base {
        lemma_small_mod(v, base);
        lemma_digit_char_value(v, base);
        let b = ascii_bytes(d);
        assert(b.drop_last() =~= Seq::<u8>::empty());
        assert(b.last() == (digit_char(v) as u32) as u8);
        assert(digits_value(b.drop_last(), base) == Some(0nat));
        assert(0 * base + v == v);
    } else {
        lemma_div_decreases(v as int, base as int);
        lemma_digits_value_roundtrip(v / base, base);
        let b = ascii_bytes(d);
        assert(b.drop_last() =~= ascii_bytes(digits(v / base, base)));
        lemma_digit_char_value(v % base, base);
        assert(b.last() == (digit_char(v % base) as u32) as u8);
        lemma_fundamental_div_mod(v as int, base as int);
        assert((v / base) * base == base * (v / base)) by (nonlinear_arith);
    }
}

} // verus!
