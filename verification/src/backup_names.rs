//! The names of backup files, and their order by age.
//!
//! A backup is named after the file that it was taken of, the time in milliseconds
//! and a sequence number, so that its age can be read from its name. Other files of
//! that kind of name are put among the backups by the text of their names.

use crate::text::{self, characters, decimal_text, joined};
use vstd::prelude::*;

verus! {

/// The name of the backup that was taken of `stem` at a time, with a sequence
/// number that tells backups of the same millisecond apart.
pub open spec fn backup_name(stem: Seq<char>, milliseconds: u128, sequence: u64) -> Seq<char> {
    stem + "."@ + text::decimal(milliseconds as nat) + "."@ + text::decimal(sequence as nat)
        + ".json"@
}

/// Writes the name of a backup.
pub fn backup_file_name(stem: &str, milliseconds: u128, sequence: u64) -> (res: String)
    ensures
        res@ == backup_name(stem@, milliseconds, sequence),
{
    let mut name: String = stem.to_owned();
    name.append(".");
    name.append(decimal_text(milliseconds).as_str());
    name.append(".");
    name.append(decimal_text(sequence as u128).as_str());
    name.append(".json");
    name
}

/// A decimal digit.
pub open spec fn is_digit(c: char) -> bool {
    '0' <= c <= '9'
}

/// The number that a sequence of digits stands for.
pub open spec fn number(digits: Seq<char>) -> nat
    decreases digits.len(),
{
    if digits.len() == 0 {
        0
    } else {
        (number(digits.drop_last()) * 10 + (digits.last() as u32 - 48)) as nat
    }
}

/// Decimal notation is made of digits, at least one, and stands for its number.
proof fn lemma_decimal(n: nat)
    ensures
        text::decimal(n).len() > 0,
        forall|i: int| 0 <= i < text::decimal(n).len() ==> is_digit(#[trigger] text::decimal(n)[i]),
        number(text::decimal(n)) == n,
    decreases n,
{
    let d = text::decimal(n);
    if n < 10 {
        assert(d.drop_last() =~= Seq::<char>::empty());
        assert(number(d.drop_last()) == 0);
    } else {
        let head = text::decimal(n / 10);
        lemma_decimal(n / 10);
        assert(d.drop_last() =~= head);
        assert forall|i: int| 0 <= i < d.len() implies is_digit(#[trigger] d[i]) by {
            if i < head.len() {
                assert(d[i] == head[i]);
            }
        }
    }
}

/// More digits never make a smaller number.
proof fn lemma_number_grows(digits: Seq<char>, n: int)
    requires
        0 <= n <= digits.len(),
        forall|i: int| 0 <= i < digits.len() ==> is_digit(#[trigger] digits[i]),
    ensures
        number(digits.take(n)) <= number(digits),
    decreases digits.len(),
{
    if n == digits.len() {
        assert(digits.take(n) =~= digits);
    } else {
        let head = digits.drop_last();
        assert forall|i: int| 0 <= i < head.len() implies is_digit(#[trigger] head[i]) by {
            assert(digits[i] == head[i]);
        }
        lemma_number_grows(head, n);
        assert(head.take(n) =~= digits.take(n));
        assert(is_digit(digits[digits.len() - 1]));
    }
}

/// The decimal notation of `n` stands in `s` from `start`, and no digit follows it.
spec fn number_at(s: Seq<char>, start: int, n: nat) -> bool {
    let end = start + text::decimal(n).len();
    &&& end <= s.len()
    &&& s.subrange(start, end) == text::decimal(n)
    &&& end < s.len() ==> !is_digit(s[end])
}

/// Reads the digits from `start` on: the number, and where they end.
fn read_number(chars: &Vec<char>, start: usize) -> (res: Option<(u128, usize)>)
    requires
        start <= chars@.len(),
    ensures
        res matches Some(read) ==> start <= read.1 <= chars@.len(),
        forall|n: u128|
            #[trigger] number_at(chars@, start as int, n as nat) ==> res == Some(
                (n, (start + text::decimal(n as nat).len()) as usize),
            ),
{
    let mut value: u128 = 0;
    let mut end: usize = start;
    assert(chars@.subrange(start as int, start as int) =~= Seq::<char>::empty());
    while end < chars.len() && '0' <= chars[end] && chars[end] <= '9'
        invariant
            start <= end <= chars@.len(),
            forall|i: int| start <= i < end ==> is_digit(#[trigger] chars@[i]),
            value == number(chars@.subrange(start as int, end as int)),
        decreases chars.len() - end,
    {
        let digit: u8 = chars[end] as u8 - 48u8;
        let ghost read = chars@.subrange(start as int, end + 1);
        assert(read.drop_last() =~= chars@.subrange(start as int, end as int));
        assert(number(read) == value * 10 + digit);
        if value > (u128::MAX - digit as u128) / 10 {
            assert forall|n: u128| #[trigger]
                number_at(chars@, start as int, n as nat) implies false by {
                lemma_number_found(chars@, start as int, end + 1, n as nat);
            }
            return None;
        }
        value = value * 10 + digit as u128;
        end = end + 1;
    }
    assert forall|n: u128| #[trigger]
        number_at(chars@, start as int, n as nat) implies n == value && end == start
        + text::decimal(n as nat).len() by {
        lemma_number_found(chars@, start as int, end as int, n as nat);
        lemma_decimal(n as nat);
        let stop = start + text::decimal(n as nat).len();
        if end < stop {
            assert(chars@[end as int] == text::decimal(n as nat)[end - start]);
        }
    }
    Some((value, end))
}

/// While digits are read, they are those of the number that stands there, and they
/// stand for no more than it.
proof fn lemma_number_found(s: Seq<char>, start: int, end: int, n: nat)
    requires
        0 <= start <= end <= s.len(),
        number_at(s, start, n),
        forall|i: int| start <= i < end ==> is_digit(#[trigger] s[i]),
    ensures
        end <= start + text::decimal(n).len(),
        number(s.subrange(start, end)) <= n,
{
    lemma_decimal(n);
    let stop = start + text::decimal(n).len();
    if end > stop {
        assert(is_digit(s[stop]));
    }
    lemma_number_grows(text::decimal(n), end - start);
    assert(s.subrange(start, stop).take(end - start) =~= s.subrange(start, end));
}

/// `name` is that of the backup with this time and this sequence number.
pub open spec fn bears(stem: Seq<char>, name: Seq<char>, stamp: (u128, u64)) -> bool {
    name == backup_name(stem, stamp.0, stamp.1)
}

/// The time and the sequence number that a backup of `stem` is named after, if
/// `name` is such a name.
pub open spec fn stamp(stem: Seq<char>, name: Seq<char>) -> Option<(u128, u64)> {
    if exists|stamp: (u128, u64)| bears(stem, name, stamp) {
        Some(choose|stamp: (u128, u64)| bears(stem, name, stamp))
    } else {
        None
    }
}

/// Where the two numbers stand in the name of a backup.
proof fn lemma_backup_name(stem: Seq<char>, milliseconds: u128, sequence: u64)
    ensures
        ({
            let name = backup_name(stem, milliseconds, sequence);
            let first = stem.len() + 1;
            let second = first + text::decimal(milliseconds as nat).len() + 1;
            let end = second + text::decimal(sequence as nat).len();
            &&& name.len() == end + 5
            &&& name[first - 1] == '.'
            &&& name[second - 1] == '.'
            &&& name.take(stem.len() as int) == stem
            &&& name.skip(end as int) == ".json"@
            &&& number_at(name, first as int, milliseconds as nat)
            &&& number_at(name, second as int, sequence as nat)
        }),
{
    reveal_strlit(".");
    reveal_strlit(".json");
    let name = backup_name(stem, milliseconds, sequence);
    let first = stem.len() + 1;
    let a = text::decimal(milliseconds as nat);
    let b = text::decimal(sequence as nat);
    let second = first + a.len() + 1;
    let end = second + b.len();
    assert(name.take(stem.len() as int) =~= stem);
    assert(name.subrange(first as int, (first + a.len()) as int) =~= a);
    assert(name.subrange(second as int, end as int) =~= b);
    assert(name.skip(end as int) =~= ".json"@);
    assert(name[end as int] == name.skip(end as int)[0]);
}

/// The name of a backup is the stem, a dot, the digits of the time, a dot, the digits of
/// the sequence number, and `.json`; the digits stand for the two numbers and have no
/// leading zeros. The result is the digits of the two.
pub proof fn law_backup_name_is_spelled_out(
    stem: Seq<char>,
    milliseconds: u128,
    sequence: u64,
) -> (digits: (Seq<char>, Seq<char>))
    ensures
        backup_name(stem, milliseconds, sequence) == stem + seq!['.'] + digits.0 + seq!['.']
            + digits.1 + seq!['.', 'j', 's', 'o', 'n'],
        forall|i: int| 0 <= i < digits.0.len() ==> '0' <= #[trigger] digits.0[i] <= '9',
        forall|i: int| 0 <= i < digits.1.len() ==> '0' <= #[trigger] digits.1[i] <= '9',
        digits.0.len() > 1 ==> digits.0.first() != '0',
        digits.1.len() > 1 ==> digits.1.first() != '0',
        digits.0.len() > 0 && number(digits.0) == milliseconds,
        digits.1.len() > 0 && number(digits.1) == sequence,
{
    reveal_strlit(".");
    reveal_strlit(".json");
    assert("."@ =~= seq!['.']);
    assert(".json"@ =~= seq!['.', 'j', 's', 'o', 'n']);
    lemma_decimal(milliseconds as nat);
    lemma_decimal(sequence as nat);
    text::law_decimal(milliseconds as nat, 0);
    text::law_decimal(sequence as nat, 0);
    (text::decimal(milliseconds as nat), text::decimal(sequence as nat))
}

/// The number of no digits is zero, and a digit behind others counts once where they
/// count ten times.
pub proof fn law_number(digits: Seq<char>, c: char)
    requires
        '0' <= c <= '9',
    ensures
        number(Seq::empty()) == 0,
        number(digits.push(c)) == 10 * number(digits) + (c as u32 - '0' as u32),
{
    assert(digits.push(c).drop_last() =~= digits);
}

/// No two pairs of a time and a sequence number give the same name: a backup never
/// takes the name of another one.
pub proof fn law_backup_names_are_distinct(stem: Seq<char>, a: (u128, u64), b: (u128, u64))
    ensures
        backup_name(stem, a.0, a.1) == backup_name(stem, b.0, b.1) ==> a == b,
{
    if backup_name(stem, a.0, a.1) == backup_name(stem, b.0, b.1) {
        let name = backup_name(stem, a.0, a.1);
        let first = stem.len() + 1;
        lemma_backup_name(stem, a.0, a.1);
        lemma_backup_name(stem, b.0, b.1);
        lemma_same_number(name, first as int, a.0 as nat, b.0 as nat);
        let second = first + text::decimal(a.0 as nat).len() + 1;
        lemma_same_number(name, second as int, a.1 as nat, b.1 as nat);
    }
}

proof fn lemma_same_number(s: Seq<char>, start: int, a: nat, b: nat)
    requires
        0 <= start,
        number_at(s, start, a),
        number_at(s, start, b),
    ensures
        a == b,
{
    lemma_decimal(a);
    lemma_decimal(b);
    let x = text::decimal(a);
    let y = text::decimal(b);
    if x.len() < y.len() {
        assert(s[start + x.len()] == y[x.len() as int]);
    } else if y.len() < x.len() {
        assert(s[start + y.len()] == x[y.len() as int]);
    }
    assert(x =~= y);
}

/// The time and the sequence number of a backup can be read back from its name.
pub proof fn law_stamp_is_read_back(stem: Seq<char>, milliseconds: u128, sequence: u64)
    ensures
        stamp(stem, backup_name(stem, milliseconds, sequence)) == Some((milliseconds, sequence)),
{
    let name = backup_name(stem, milliseconds, sequence);
    assert(bears(stem, name, (milliseconds, sequence)));
    let found = choose|stamp: (u128, u64)| bears(stem, name, stamp);
    law_backup_names_are_distinct(stem, (milliseconds, sequence), found);
}

/// A name bears a time and a sequence number exactly if it is the name of the backup of
/// these two; any other name tells no age.
pub proof fn law_stamp_is_that_of_the_name(stem: Seq<char>, name: Seq<char>, one: (u128, u64))
    ensures
        stamp(stem, name) == Some(one) <==> name == backup_name(stem, one.0, one.1),
        is_dated(stem, name) <==> exists|other: (u128, u64)| #[trigger]
            backup_name(stem, other.0, other.1) == name,
{
    if name == backup_name(stem, one.0, one.1) {
        law_stamp_is_read_back(stem, one.0, one.1);
    }
    if exists|other: (u128, u64)| #[trigger] backup_name(stem, other.0, other.1) == name {
        let other = choose|other: (u128, u64)| #[trigger]
            backup_name(stem, other.0, other.1) == name;
        assert(bears(stem, name, other));
    }
}

/// Reads the time and the sequence number from the name of a backup.
pub fn read_stamp(stem: &str, name: &String) -> (res: Option<(u128, u64)>)
    ensures
        res == stamp(stem@, name@),
{
    let chars: Vec<char> = characters(name.as_str());
    let stem_length: usize = stem.unicode_len();
    proof {
        if let Some(found) = stamp(stem@, name@) {
            lemma_backup_name(stem@, found.0, found.1);
        }
    }
    if chars.len() > stem_length {
        if let Some((milliseconds, end)) = read_number(&chars, stem_length + 1) {
            if end < chars.len() {
                if let Some((sequence, _)) = read_number(&chars, end + 1) {
                    if sequence <= u64::MAX as u128 {
                        let again: String = backup_file_name(stem, milliseconds, sequence as u64);
                        if again == *name {
                            proof {
                                law_stamp_is_read_back(stem@, milliseconds, sequence as u64);
                            }
                            return Some((milliseconds, sequence as u64));
                        }
                    }
                }
            }
        }
    }
    None
}

/// `a` does not come after `b` in the order of their characters.
pub open spec fn alphabetical(a: Seq<char>, b: Seq<char>) -> bool
    decreases a.len(),
{
    if a.len() == 0 {
        true
    } else if b.len() == 0 {
        false
    } else if a.first() == b.first() {
        alphabetical(a.drop_first(), b.drop_first())
    } else {
        a.first() < b.first()
    }
}

/// `a` is not newer than `b`. Backups are ordered by time, and by sequence number
/// within a millisecond. A name without a stamp tells no age; what is said of such
/// names only makes the order total, and none is ever sorted by it.
pub open spec fn not_newer(stem: Seq<char>, a: Seq<char>, b: Seq<char>) -> bool {
    match (stamp(stem, a), stamp(stem, b)) {
        (Some(x), Some(y)) => x.0 < y.0 || (x.0 == y.0 && x.1 <= y.1),
        (Some(_), None) => true,
        (None, Some(_)) => false,
        (None, None) => alphabetical(a, b),
    }
}

proof fn lemma_alphabetical_order(a: Seq<char>, b: Seq<char>, c: Seq<char>)
    ensures
        alphabetical(a, a),
        alphabetical(a, b) || alphabetical(b, a),
        alphabetical(a, b) && alphabetical(b, a) ==> a == b,
        alphabetical(a, b) && alphabetical(b, c) ==> alphabetical(a, c),
    decreases a.len() + b.len() + c.len(),
{
    if a.len() > 0 {
        let rest = a.drop_first();
        lemma_alphabetical_order(
            rest,
            if b.len() > 0 {
                b.drop_first()
            } else {
                b
            },
            if c.len() > 0 {
                c.drop_first()
            } else {
                c
            },
        );
        if b.len() > 0 && alphabetical(a, b) && alphabetical(b, a) {
            assert(a =~= seq![a.first()] + a.drop_first());
            assert(b =~= seq![b.first()] + b.drop_first());
        }
    } else if b.len() == 0 {
        assert(a =~= b);
    }
}

/// The order of the text is that of the first characters that differ; a text comes before
/// all that go on where it ends.
pub proof fn law_text_order_is_that_of_the_characters(a: Seq<char>, b: Seq<char>)
    ensures
        alphabetical(a, b) <==> exists|k: int| #[trigger] comes_first_at(a, b, k),
    decreases a.len(),
{
    if a.len() == 0 {
        assert(comes_first_at(a, b, 0));
    } else if b.len() > 0 {
        if a.first() == b.first() {
            let x = a.drop_first();
            let y = b.drop_first();
            law_text_order_is_that_of_the_characters(x, y);
            if alphabetical(a, b) {
                let k = choose|k: int| #[trigger] comes_first_at(x, y, k);
                assert forall|i: int| 0 <= i < k + 1 implies #[trigger] a[i] == b[i] by {
                    if i > 0 {
                        assert(x[i - 1] == y[i - 1]);
                    }
                }
                assert(comes_first_at(a, b, k + 1));
            }
            if exists|k: int| #[trigger] comes_first_at(a, b, k) {
                let k = choose|k: int| #[trigger] comes_first_at(a, b, k);
                assert forall|i: int| 0 <= i < k - 1 implies #[trigger] x[i] == y[i] by {
                    assert(a[i + 1] == b[i + 1]);
                }
                assert(comes_first_at(x, y, k - 1));
            }
        } else {
            if a.first() < b.first() {
                assert(comes_first_at(a, b, 0));
            }
            if exists|k: int| #[trigger] comes_first_at(a, b, k) {
                let k = choose|k: int| #[trigger] comes_first_at(a, b, k);
                if k > 0 {
                    assert(a[0] == b[0]);
                }
            }
        }
    }
}

/// `a` and `b` are the same up to `k`, where `a` ends or has the smaller character.
pub open spec fn comes_first_at(a: Seq<char>, b: Seq<char>, k: int) -> bool {
    &&& 0 <= k <= a.len()
    &&& k <= b.len()
    &&& forall|i: int| 0 <= i < k ==> #[trigger] a[i] == b[i]
    &&& k == a.len() || (k < b.len() && a[k] < b[k])
}

/// The order by age.
pub open spec fn age_order(stem: Seq<char>) -> spec_fn(Seq<char>, Seq<char>) -> bool {
    |a: Seq<char>, b: Seq<char>| not_newer(stem, a, b)
}

/// The order by the text of the names.
pub open spec fn text_order() -> spec_fn(Seq<char>, Seq<char>) -> bool {
    |a: Seq<char>, b: Seq<char>| alphabetical(a, b)
}

/// Any two names can be compared, by age and by text, and each comparison is a total
/// order.
pub proof fn law_orders_are_total(stem: Seq<char>)
    ensures
        vstd::relations::total_ordering(age_order(stem)),
        vstd::relations::total_ordering(text_order()),
{
    let age = age_order(stem);
    let text = text_order();
    assert forall|a: Seq<char>| #[trigger] age(a, a) by {
        lemma_alphabetical_order(a, a, a);
    }
    assert forall|a: Seq<char>, b: Seq<char>| #[trigger] age(a, b) && #[trigger] age(b, a) implies a
        == b by {
        lemma_alphabetical_order(a, b, b);
    }
    assert forall|a: Seq<char>, b: Seq<char>, c: Seq<char>| #[trigger]
        age(a, b) && #[trigger] age(b, c) implies age(a, c) by {
        lemma_alphabetical_order(a, b, c);
    }
    assert forall|a: Seq<char>, b: Seq<char>| #[trigger] age(a, b) || #[trigger] age(b, a) by {
        lemma_alphabetical_order(a, b, b);
    }
    assert forall|a: Seq<char>| #[trigger] text(a, a) by {
        lemma_alphabetical_order(a, a, a);
    }
    assert forall|a: Seq<char>, b: Seq<char>| #[trigger]
        text(a, b) && #[trigger] text(b, a) implies a == b by {
        lemma_alphabetical_order(a, b, b);
    }
    assert forall|a: Seq<char>, b: Seq<char>, c: Seq<char>| #[trigger]
        text(a, b) && #[trigger] text(b, c) implies text(a, c) by {
        lemma_alphabetical_order(a, b, c);
    }
    assert forall|a: Seq<char>, b: Seq<char>| #[trigger] text(a, b) || #[trigger] text(b, a) by {
        lemma_alphabetical_order(a, b, b);
    }
}

/// The order by age of two backups is that of their times, and of their sequence
/// numbers where the times are the same.
pub proof fn law_age_follows_the_stamp(stem: Seq<char>, a: (u128, u64), b: (u128, u64))
    ensures
        not_newer(stem, backup_name(stem, a.0, a.1), backup_name(stem, b.0, b.1)) <==> a.0 < b.0
            || (a.0 == b.0 && a.1 <= b.1),
{
    law_stamp_is_read_back(stem, a.0, a.1);
    law_stamp_is_read_back(stem, b.0, b.1);
}

/// `name` is taken for a backup of `stem`: it starts with the stem and a dot, and
/// it ends with `.json`.
pub open spec fn is_backup_of(stem: Seq<char>, name: Seq<char>) -> bool {
    &&& (stem + "."@).is_prefix_of(name)
    &&& ".json"@.is_suffix_of(name)
}

/// A name is taken for a backup exactly if it starts with the characters of the stem and
/// a dot, and ends with `.json`; the dot may be the same.
pub proof fn law_backups_are_told_by_their_ends(stem: Seq<char>, name: Seq<char>)
    ensures
        is_backup_of(stem, name) <==> {
            let n = name.len() as int;
            &&& n > stem.len() && n >= 5
            &&& forall|i: int| 0 <= i < stem.len() ==> #[trigger] name[i] == stem[i]
            &&& name[stem.len() as int] == '.'
            &&& name[n - 5] == '.' && name[n - 4] == 'j' && name[n - 3] == 's' && name[n - 2]
                == 'o' && name[n - 1] == 'n'
        },
{
    reveal_strlit(".");
    reveal_strlit(".json");
    let n = name.len() as int;
    let head = stem + "."@;
    let tail = ".json"@;
    if is_backup_of(stem, name) {
        assert(head =~= name.subrange(0, head.len() as int));
        assert(tail =~= name.subrange(n - 5, n));
        assert forall|i: int| 0 <= i < stem.len() implies #[trigger] name[i] == stem[i] by {
            assert(head[i] == stem[i]);
        }
        assert(head[stem.len() as int] == '.');
        assert(tail[0] == '.' && tail[1] == 'j' && tail[2] == 's' && tail[3] == 'o' && tail[4]
            == 'n');
        assert(name[n - 5] == tail[0]);
        assert(name[n - 4] == tail[1]);
        assert(name[n - 3] == tail[2]);
        assert(name[n - 2] == tail[3]);
        assert(name[n - 1] == tail[4]);
    } else if n > stem.len() && n >= 5 && (forall|i: int|
        0 <= i < stem.len() ==> #[trigger] name[i] == stem[i]) && name[stem.len() as int] == '.'
        && name[n - 5] == '.' && name[n - 4] == 'j' && name[n - 3] == 's' && name[n - 2] == 'o'
        && name[n - 1] == 'n' {
        assert(head =~= name.subrange(0, head.len() as int));
        assert(tail =~= name.subrange(n - 5, n));
    }
}

/// The names in a listing that are taken for backups of `stem`, in the order of
/// the listing. An entry without a name is passed over.
pub open spec fn backups_in(stem: Seq<char>, listing: Seq<Option<Seq<char>>>) -> Seq<Seq<char>>
    decreases listing.len(),
{
    if listing.len() == 0 {
        Seq::empty()
    } else {
        let rest = backups_in(stem, listing.drop_last());
        match listing.last() {
            Some(name) => if is_backup_of(stem, name) {
                rest.push(name)
            } else {
                rest
            },
            None => rest,
        }
    }
}

/// `name` bears a stamp, so it tells an age.
pub open spec fn is_dated(stem: Seq<char>, name: Seq<char>) -> bool {
    stamp(stem, name) is Some
}

/// The names that tell an age, in the order given.
pub open spec fn dated(stem: Seq<char>, names: Seq<Seq<char>>) -> Seq<Seq<char>>
    decreases names.len(),
{
    if names.len() == 0 {
        Seq::empty()
    } else if is_dated(stem, names.last()) {
        dated(stem, names.drop_last()).push(names.last())
    } else {
        dated(stem, names.drop_last())
    }
}

/// The names that tell an age, the oldest first.
pub open spec fn by_age(stem: Seq<char>, names: Seq<Seq<char>>) -> Seq<Seq<char>> {
    dated(stem, names).sort_by(age_order(stem))
}

/// All names in the order of their text.
pub open spec fn by_text(names: Seq<Seq<char>>) -> Seq<Seq<char>> {
    names.sort_by(text_order())
}

/// `slots` with each name that tells an age replaced by the next one of `aged`.
pub open spec fn refilled(
    stem: Seq<char>,
    slots: Seq<Seq<char>>,
    aged: Seq<Seq<char>>,
) -> Seq<Seq<char>>
    decreases slots.len(),
{
    if slots.len() == 0 {
        Seq::empty()
    } else if is_dated(stem, slots.last()) {
        refilled(stem, slots.drop_last(), aged.drop_last()).push(aged.last())
    } else {
        refilled(stem, slots.drop_last(), aged).push(slots.last())
    }
}

/// The order in which backups are removed. A name that tells no age has the place
/// that the order of the text gives it; the names that tell one share the other
/// places among them, the oldest first.
pub open spec fn removal_order(stem: Seq<char>, names: Seq<Seq<char>>) -> Seq<Seq<char>> {
    refilled(stem, by_text(names), by_age(stem, names))
}

fn has_prefix(chars: &Vec<char>, prefix: &Vec<char>) -> (res: bool)
    ensures
        res == prefix@.is_prefix_of(chars@),
{
    if prefix.len() > chars.len() {
        return false;
    }
    let mut i: usize = 0;
    while i < prefix.len()
        invariant
            i <= prefix@.len() <= chars@.len(),
            forall|j: int| 0 <= j < i ==> prefix@[j] == chars@[j],
        decreases prefix.len() - i,
    {
        if prefix[i] != chars[i] {
            return false;
        }
        i = i + 1;
    }
    assert(prefix@ =~= chars@.subrange(0, prefix@.len() as int));
    true
}

fn has_suffix(chars: &Vec<char>, suffix: &Vec<char>) -> (res: bool)
    ensures
        res == suffix@.is_suffix_of(chars@),
{
    if suffix.len() > chars.len() {
        return false;
    }
    let from: usize = chars.len() - suffix.len();
    let mut i: usize = 0;
    while i < suffix.len()
        invariant
            i <= suffix@.len(),
            from + suffix.len() == chars.len(),
            forall|j: int| 0 <= j < i ==> suffix@[j] == chars@[from + j],
        decreases suffix.len() - i,
    {
        if suffix[i] != chars[from + i] {
            assert(chars@.subrange(from as int, chars@.len() as int)[i as int] == chars@[from + i]);
            return false;
        }
        i = i + 1;
    }
    assert(suffix@ =~= chars@.subrange(from as int, chars@.len() as int));
    true
}

fn in_alphabetical_order(a: &Vec<char>, b: &Vec<char>) -> (res: bool)
    ensures
        res == alphabetical(a@, b@),
{
    let mut i: usize = 0;
    assert(a@.skip(0) =~= a@);
    assert(b@.skip(0) =~= b@);
    while i < a.len() && i < b.len()
        invariant
            i <= a@.len(),
            i <= b@.len(),
            alphabetical(a@, b@) == alphabetical(a@.skip(i as int), b@.skip(i as int)),
        decreases a.len() - i,
    {
        if a[i] != b[i] {
            return a[i] < b[i];
        }
        assert(a@.skip(i as int).drop_first() =~= a@.skip(i + 1));
        assert(b@.skip(i as int).drop_first() =~= b@.skip(i + 1));
        i = i + 1;
    }
    i == a.len()
}

/// A backup that was found, with what its place among others depends on.
struct Found {
    name: String,
    chars: Vec<char>,
    stamp: Option<(u128, u64)>,
}

/// The order that is sorted by.
spec fn chosen_order(age: bool, stem: Seq<char>) -> spec_fn(Seq<char>, Seq<char>) -> bool {
    if age {
        age_order(stem)
    } else {
        text_order()
    }
}

impl Found {
    spec fn well_formed(self, stem: Seq<char>) -> bool {
        &&& self.chars@ == self.name@
        &&& self.stamp == stamp(stem, self.name@)
    }

    fn not_after(&self, other: &Found, age: bool, Ghost(stem): Ghost<Seq<char>>) -> (res: bool)
        requires
            self.well_formed(stem),
            other.well_formed(stem),
        ensures
            res == chosen_order(age, stem)(self.name@, other.name@),
    {
        if !age {
            return in_alphabetical_order(&self.chars, &other.chars);
        }
        match (&self.stamp, &other.stamp) {
            (Some(x), Some(y)) => x.0 < y.0 || (x.0 == y.0 && x.1 <= y.1),
            (Some(_), None) => true,
            (None, Some(_)) => false,
            (None, None) => in_alphabetical_order(&self.chars, &other.chars),
        }
    }
}

spec fn names_of(found: Seq<Found>) -> Seq<Seq<char>> {
    found.map_values(|one: Found| one.name@)
}

/// Backups that are in order, each with what belongs to its name.
spec fn in_order(found: Seq<Found>, age: bool, stem: Seq<char>) -> bool {
    &&& forall|i: int| 0 <= i < found.len() ==> (#[trigger] found[i]).well_formed(stem)
    &&& vstd::relations::sorted_by(names_of(found), chosen_order(age, stem))
}

/// Puts a backup where it belongs among backups that are in order.
fn insert_in_order(
    sorted: &mut Vec<Found>,
    one: Found,
    age: bool,
    Ghost(stem): Ghost<Seq<char>>,
)
    requires
        one.well_formed(stem),
        in_order(old(sorted)@, age, stem),
    ensures
        in_order(final(sorted)@, age, stem),
        names_of(final(sorted)@).to_multiset() == names_of(old(sorted)@).to_multiset().insert(
            one.name@,
        ),
{
    let ghost before = names_of(sorted@);
    let ghost leq = chosen_order(age, stem);
    let ghost found = sorted@;
    let mut place: usize = 0;
    while place < sorted.len() && sorted[place].not_after(&one, age, Ghost(stem))
        invariant
            sorted@ == found,
            one.well_formed(stem),
            place <= sorted@.len(),
            leq == chosen_order(age, stem),
            forall|i: int| 0 <= i < found.len() ==> (#[trigger] found[i]).well_formed(stem),
            forall|i: int| 0 <= i < place ==> leq((#[trigger] found[i]).name@, one.name@),
        decreases sorted.len() - place,
    {
        place = place + 1;
    }
    let ghost name = one.name@;
    sorted.insert(place, one);
    proof {
        law_orders_are_total(stem);
        let after = names_of(sorted@);
        assert(after =~= before.insert(place as int, name));
        vstd::seq_lib::to_multiset_insert(before, place as int, name);
        assert forall|i: int, j: int| 0 <= i < j < after.len() implies #[trigger] leq(
            after[i],
            after[j],
        ) by {
            let x = if i < place {
                i
            } else {
                i - 1
            };
            let y = if j < place {
                j
            } else {
                j - 1
            };
            if i != place && j != place {
                assert(leq(before[x], before[y]));
            } else if j == place {
                assert(leq(found[i].name@, name));
            } else {
                assert(!leq(before[place as int], name));
                assert(leq(name, before[place as int]));
                if y > place {
                    assert(leq(before[place as int], before[y]));
                }
            }
        }
    }
}

/// The names of the entries of a listing.
pub open spec fn listing_model(listing: Seq<Option<String>>) -> Seq<Option<Seq<char>>> {
    listing.map_values(
        |name: Option<String>|
            match name {
                Some(name) => Some(name@),
                None => None,
            },
    )
}

/// A backup that was found under a name.
fn found(stem: &str, name: &String) -> (res: Found)
    ensures
        res.name@ == name@,
        res.well_formed(stem@),
{
    Found {
        name: name.clone(),
        chars: characters(name.as_str()),
        stamp: read_stamp(stem, name),
    }
}

/// Finds the backups of `stem` in a listing and puts them in the order in which they
/// are removed.
pub fn sort_backups(stem: &str, listing: &Vec<Option<String>>) -> (res: Vec<String>)
    ensures
        res.deep_view() == removal_order(stem@, backups_in(stem@, listing_model(listing@))),
{
    let prefix_text: String = joined(stem, ".");
    let prefix: Vec<char> = characters(prefix_text.as_str());
    let suffix: Vec<char> = characters(".json");
    let mut slots: Vec<Found> = Vec::new();
    let mut aged: Vec<Found> = Vec::new();
    let mut i: usize = 0;
    let ghost model = listing_model(listing@);
    assert(names_of(slots@) =~= backups_in(stem@, model.take(0)));
    assert(names_of(aged@) =~= dated(stem@, backups_in(stem@, model.take(0))));
    while i < listing.len()
        invariant
            i <= listing@.len(),
            model == listing_model(listing@),
            prefix@ == stem@ + "."@,
            suffix@ == ".json"@,
            in_order(slots@, false, stem@),
            in_order(aged@, true, stem@),
            names_of(slots@).to_multiset() == backups_in(
                stem@,
                model.take(i as int),
            ).to_multiset(),
            names_of(aged@).to_multiset() == dated(
                stem@,
                backups_in(stem@, model.take(i as int)),
            ).to_multiset(),
        decreases listing.len() - i,
    {
        proof {
            let next = model.take(i + 1);
            assert(next.drop_last() =~= model.take(i as int));
            assert(next.last() == model[i as int]);
            let rest = backups_in(stem@, model.take(i as int));
            if let Some(name) = model[i as int] {
                assert(rest.push(name).drop_last() =~= rest);
                vstd::seq_lib::to_multiset_build(rest, name);
                vstd::seq_lib::to_multiset_build(dated(stem@, rest), name);
            }
        }
        if let Some(name) = &listing[i] {
            let chars: Vec<char> = characters(name.as_str());
            if has_prefix(&chars, &prefix) && has_suffix(&chars, &suffix) {
                let one: Found = found(stem, name);
                if one.stamp.is_some() {
                    insert_in_order(&mut aged, found(stem, name), true, Ghost(stem@));
                }
                insert_in_order(&mut slots, one, false, Ghost(stem@));
            }
        }
        i = i + 1;
    }
    let ghost slot_names = names_of(slots@);
    let ghost aged_names = names_of(aged@);
    let ghost backups = backups_in(stem@, model);
    proof {
        assert(model.take(i as int) =~= model);
        law_orders_are_total(stem@);
        backups.lemma_sort_by_ensures(text_order());
        vstd::seq_lib::lemma_sorted_unique(slot_names, by_text(backups), text_order());
        dated(stem@, backups).lemma_sort_by_ensures(age_order(stem@));
        vstd::seq_lib::lemma_sorted_unique(
            aged_names,
            by_age(stem@, backups),
            age_order(stem@),
        );
        lemma_as_many_dated(stem@, slot_names, backups);
        vstd::seq_lib::to_multiset_len(aged_names);
        vstd::seq_lib::to_multiset_len(dated(stem@, backups));
    }
    let mut res: Vec<String> = Vec::new();
    let mut k: usize = 0;
    let mut next: usize = 0;
    assert(aged_names.take(0) =~= Seq::empty());
    while k < slots.len()
        invariant
            k <= slots@.len(),
            next <= k,
            slot_names == names_of(slots@),
            aged_names == names_of(aged@),
            forall|j: int| 0 <= j < slots@.len() ==> (#[trigger] slots@[j]).well_formed(stem@),
            dated(stem@, slot_names).len() == aged_names.len(),
            next == dated(stem@, slot_names.take(k as int)).len(),
            next <= aged_names.len(),
            res.deep_view() == refilled(
                stem@,
                slot_names.take(k as int),
                aged_names.take(next as int),
            ),
        decreases slots.len() - k,
    {
        let ghost before = res.deep_view();
        proof {
            assert(slots@[k as int].well_formed(stem@));
            assert(slot_names.take(k + 1).drop_last() =~= slot_names.take(k as int));
            assert(slot_names.take(k + 1).last() == slot_names[k as int]);
            lemma_fewer_dated(stem@, slot_names, k + 1);
            if next < aged_names.len() {
                assert(aged_names.take(next + 1).drop_last() =~= aged_names.take(next as int));
            }
        }
        if slots[k].stamp.is_some() {
            res.push(aged[next].name.clone());
            next = next + 1;
            assert(res.deep_view() =~= before.push(aged_names[next - 1]));
        } else {
            res.push(slots[k].name.clone());
            assert(res.deep_view() =~= before.push(slot_names[k as int]));
        }
        k = k + 1;
    }
    proof {
        assert(slot_names.take(k as int) =~= slot_names);
        assert(aged_names.take(next as int) =~= aged_names);
    }
    res
}

/// How often a name occurs among those that tell an age.
proof fn lemma_dated_count(stem: Seq<char>, names: Seq<Seq<char>>, name: Seq<char>)
    ensures
        dated(stem, names).to_multiset().count(name) == if is_dated(stem, name) {
            names.to_multiset().count(name)
        } else {
            0
        },
    decreases names.len(),
{
    if names.len() == 0 {
        vstd::seq_lib::to_multiset_contains(names, name);
        vstd::seq_lib::to_multiset_contains(dated(stem, names), name);
    } else {
        let rest = names.drop_last();
        lemma_dated_count(stem, rest, name);
        assert(rest.push(names.last()) =~= names);
        vstd::seq_lib::to_multiset_build(rest, names.last());
        vstd::seq_lib::to_multiset_build(dated(stem, rest), names.last());
    }
}

/// Names in another order are as many that tell an age.
proof fn lemma_as_many_dated(stem: Seq<char>, a: Seq<Seq<char>>, b: Seq<Seq<char>>)
    requires
        a.to_multiset() == b.to_multiset(),
    ensures
        dated(stem, a).to_multiset() == dated(stem, b).to_multiset(),
        dated(stem, a).len() == dated(stem, b).len(),
{
    let x = dated(stem, a);
    let y = dated(stem, b);
    assert forall|name: Seq<char>| #[trigger] x.to_multiset().count(name) == y.to_multiset().count(
        name,
    ) by {
        lemma_dated_count(stem, a, name);
        lemma_dated_count(stem, b, name);
    }
    assert(x.to_multiset() =~= y.to_multiset());
    vstd::seq_lib::to_multiset_len(x);
    vstd::seq_lib::to_multiset_len(y);
}

/// The first names are no more that tell an age than all of them.
proof fn lemma_fewer_dated(stem: Seq<char>, names: Seq<Seq<char>>, n: int)
    requires
        0 <= n <= names.len(),
    ensures
        dated(stem, names.take(n)).len() <= dated(stem, names).len(),
        dated(stem, names).len() <= names.len(),
    decreases names.len(),
{
    if n < names.len() {
        lemma_fewer_dated(stem, names.drop_last(), n);
        assert(names.drop_last().take(n) =~= names.take(n));
    } else {
        assert(names.take(n) =~= names);
        if n > 0 {
            lemma_fewer_dated(stem, names.drop_last(), n - 1);
        }
    }
}

/// The name of a backup is taken for a backup of its stem.
pub proof fn law_backup_name_is_recognized(stem: Seq<char>, milliseconds: u128, sequence: u64)
    ensures
        is_backup_of(stem, backup_name(stem, milliseconds, sequence)),
{
    reveal_strlit(".");
    reveal_strlit(".json");
    let name = backup_name(stem, milliseconds, sequence);
    lemma_backup_name(stem, milliseconds, sequence);
    assert(name.subrange(0, (stem.len() + 1) as int) =~= stem + "."@) by {
        assert forall|i: int| 0 <= i < stem.len() implies name[i] == stem[i] by {
            assert(name.take(stem.len() as int)[i] == name[i]);
        }
    }
    assert(name.subrange(name.len() - 5, name.len() as int) =~= name.skip(name.len() - 5));
}

/// No name is taken for a backup of two stems, if neither stem holds a dot.
pub proof fn law_stems_do_not_mix(a: Seq<char>, b: Seq<char>, name: Seq<char>)
    requires
        a != b,
        !a.contains('.'),
        !b.contains('.'),
    ensures
        !(is_backup_of(a, name) && is_backup_of(b, name)),
{
    reveal_strlit(".");
    if is_backup_of(a, name) && is_backup_of(b, name) {
        let p = a + "."@;
        let q = b + "."@;
        assert(p =~= name.take(p.len() as int));
        assert(q =~= name.take(q.len() as int));
        assert(p[a.len() as int] == '.' && q[b.len() as int] == '.');
        if a.len() < b.len() {
            assert(name[a.len() as int] == p[a.len() as int]);
            assert(b[a.len() as int] == name[a.len() as int]);
        } else if b.len() < a.len() {
            assert(name[b.len() as int] == q[b.len() as int]);
            assert(a[b.len() as int] == name[b.len() as int]);
        } else {
            assert forall|i: int| 0 <= i < a.len() implies a[i] == b[i] by {
                assert(p[i] == name[i] && q[i] == name[i]);
            }
            assert(a =~= b);
        }
    }
}

/// No name is taken for a backup of the command file and of the inbox file.
pub proof fn law_command_and_inbox_backups_are_apart(name: Seq<char>)
    ensures
        !(is_backup_of("commands"@, name) && is_backup_of("inbox"@, name)),
{
    reveal_strlit("commands");
    reveal_strlit("inbox");
    law_stems_do_not_mix("commands"@, "inbox"@, name);
}

/// A name counts among the backups in a listing exactly if the listing has it and
/// it is taken for a backup; and a listing that names nothing twice gives no
/// backup twice.
pub proof fn law_backups_in(stem: Seq<char>, listing: Seq<Option<Seq<char>>>)
    ensures
        forall|name: Seq<char>| #[trigger]
            backups_in(stem, listing).contains(name) <==> listing.contains(Some(name))
                && is_backup_of(stem, name),
        (forall|i: int, j: int|
            0 <= i < j < listing.len() && #[trigger] listing[i] is Some ==> listing[i]
                != #[trigger] listing[j]) ==> backups_in(stem, listing).no_duplicates(),
    decreases listing.len(),
{
    if listing.len() > 0 {
        let head = listing.drop_last();
        law_backups_in(stem, head);
        let rest = backups_in(stem, head);
        let all = backups_in(stem, listing);
        assert forall|name: Seq<char>| #[trigger] all.contains(name) <==> listing.contains(
            Some(name),
        ) && is_backup_of(stem, name) by {
            if all.contains(name) {
                let i = choose|i: int| 0 <= i < all.len() && all[i] == name;
                if i < rest.len() {
                    assert(rest[i] == name);
                    assert(rest.contains(name));
                    let k = choose|k: int| 0 <= k < head.len() && head[k] == Some(name);
                    assert(listing[k] == Some(name));
                } else {
                    assert(listing[listing.len() - 1] == Some(name));
                }
            }
            if listing.contains(Some(name)) && is_backup_of(stem, name) {
                let k = choose|k: int| 0 <= k < listing.len() && listing[k] == Some(name);
                if k < head.len() {
                    assert(head[k] == Some(name));
                    assert(head.contains(Some(name)));
                    assert(rest.contains(name));
                    let i = choose|i: int| 0 <= i < rest.len() && rest[i] == name;
                    assert(all[i] == name);
                } else {
                    assert(all[all.len() - 1] == name);
                }
            }
        }
        if forall|i: int, j: int|
            0 <= i < j < listing.len() && #[trigger] listing[i] is Some ==> listing[i]
                != #[trigger] listing[j] {
            assert forall|i: int, j: int|
                0 <= i < j < head.len() && #[trigger] head[i] is Some implies head[i]
                != #[trigger] head[j] by {
                assert(listing[i] == head[i] && listing[j] == head[j]);
            }
            if let Some(name) = listing.last() {
                if rest.contains(name) {
                    assert(head.contains(Some(name)));
                    let k = choose|k: int| 0 <= k < head.len() && head[k] == Some(name);
                    assert(listing[k] != listing[listing.len() - 1]);
                }
            }
        }
    }
}

/// Every entry of a listing that is taken for a backup counts, as often as it is there,
/// and nothing else does.
pub proof fn law_backups_in_are_those_listed(
    stem: Seq<char>,
    listing: Seq<Option<Seq<char>>>,
    name: Seq<char>,
)
    ensures
        backups_in(stem, listing).to_multiset().count(name) == if is_backup_of(stem, name) {
            listing.to_multiset().count(Some(name))
        } else {
            0
        },
    decreases listing.len(),
{
    if listing.len() == 0 {
        vstd::seq_lib::to_multiset_contains(listing, Some(name));
        vstd::seq_lib::to_multiset_contains(backups_in(stem, listing), name);
    } else {
        let rest = listing.drop_last();
        law_backups_in_are_those_listed(stem, rest, name);
        assert(rest.push(listing.last()) =~= listing);
        vstd::seq_lib::to_multiset_build(rest, listing.last());
        if let Some(one) = listing.last() {
            vstd::seq_lib::to_multiset_build(backups_in(stem, rest), one);
        }
    }
}

/// A listing is told in full: every entry, in its place, with all of its name.
pub proof fn law_listing_is_told_in_full(listing: Seq<Option<String>>, i: int)
    ensures
        listing_model(listing).len() == listing.len(),
        0 <= i < listing.len() ==> match listing[i] {
            Some(name) => listing_model(listing)[i] == Some(name@),
            None => listing_model(listing)[i] is None,
        },
{
}

/// What refilling does: places without an age keep their names, the others get
/// names that tell one, and these are the given ones in their order.
proof fn lemma_refilled(stem: Seq<char>, slots: Seq<Seq<char>>, aged: Seq<Seq<char>>)
    requires
        dated(stem, slots).len() == aged.len(),
        forall|i: int| 0 <= i < aged.len() ==> is_dated(stem, #[trigger] aged[i]),
    ensures
        refilled(stem, slots, aged).len() == slots.len(),
        dated(stem, refilled(stem, slots, aged)) == aged,
        forall|i: int|
            0 <= i < slots.len() ==> is_dated(stem, #[trigger] refilled(stem, slots, aged)[i])
                == is_dated(stem, slots[i]),
        forall|i: int|
            0 <= i < slots.len() && !is_dated(stem, slots[i]) ==> #[trigger] refilled(
                stem,
                slots,
                aged,
            )[i] == slots[i],
        aged.to_multiset() == dated(stem, slots).to_multiset() ==> refilled(
            stem,
            slots,
            aged,
        ).to_multiset() == slots.to_multiset(),
    decreases slots.len(),
{
    lemma_refilled_parts(stem, slots, aged);
    if slots.len() > 0 {
        let rest = slots.drop_last();
        let now = refilled(stem, slots, aged);
        if is_dated(stem, slots.last()) {
            let fewer = aged.drop_last();
            assert forall|i: int| 0 <= i < fewer.len() implies is_dated(
                stem,
                #[trigger] fewer[i],
            ) by {
                assert(is_dated(stem, aged[i]));
            }
            lemma_refilled(stem, rest, fewer);
            let before = refilled(stem, rest, fewer);
            assert(now.drop_last() =~= before);
            assert(is_dated(stem, aged[aged.len() - 1]));
            assert(fewer.push(aged.last()) =~= aged);
        } else {
            lemma_refilled(stem, rest, aged);
            let before = refilled(stem, rest, aged);
            assert(now.drop_last() =~= before);
        }
    } else {
        assert(aged =~= Seq::empty());
    }
}

/// Refilling puts the given names in the place of those that tell an age, and adds
/// and loses no other.
proof fn lemma_refilled_parts(stem: Seq<char>, slots: Seq<Seq<char>>, aged: Seq<Seq<char>>)
    requires
        dated(stem, slots).len() == aged.len(),
    ensures
        refilled(stem, slots, aged).to_multiset().add(dated(stem, slots).to_multiset())
            == slots.to_multiset().add(aged.to_multiset()),
        aged.to_multiset() == dated(stem, slots).to_multiset() ==> refilled(
            stem,
            slots,
            aged,
        ).to_multiset() == slots.to_multiset(),
    decreases slots.len(),
{
    let now = refilled(stem, slots, aged);
    let old = dated(stem, slots);
    if slots.len() > 0 {
        let rest = slots.drop_last();
        assert(rest.push(slots.last()) =~= slots);
        vstd::seq_lib::to_multiset_build(rest, slots.last());
        if is_dated(stem, slots.last()) {
            let fewer = aged.drop_last();
            lemma_refilled_parts(stem, rest, fewer);
            assert(fewer.push(aged.last()) =~= aged);
            vstd::seq_lib::to_multiset_build(fewer, aged.last());
            vstd::seq_lib::to_multiset_build(dated(stem, rest), slots.last());
            vstd::seq_lib::to_multiset_build(refilled(stem, rest, fewer), aged.last());
        } else {
            lemma_refilled_parts(stem, rest, aged);
            vstd::seq_lib::to_multiset_build(refilled(stem, rest, aged), slots.last());
        }
        let left = now.to_multiset().add(old.to_multiset());
        let right = slots.to_multiset().add(aged.to_multiset());
        assert forall|name: Seq<char>| left.count(name) == right.count(name) by {
            let fewer = if is_dated(stem, slots.last()) {
                aged.drop_last()
            } else {
                aged
            };
            let less = refilled(stem, rest, fewer).to_multiset().add(
                dated(stem, rest).to_multiset(),
            );
            assert(less.count(name) == rest.to_multiset().count(name)
                + fewer.to_multiset().count(name));
        }
        assert(left =~= right);
    } else {
        assert(aged =~= Seq::empty());
        assert(slots =~= Seq::empty());
    }
    if aged.to_multiset() == old.to_multiset() {
        assert forall|name: Seq<char>| #[trigger] now.to_multiset().count(name)
            == slots.to_multiset().count(name) by {
            assert(now.to_multiset().add(old.to_multiset()).count(name)
                == slots.to_multiset().add(aged.to_multiset()).count(name));
        }
        assert(now.to_multiset() =~= slots.to_multiset());
    }
}

/// Where the names that tell an age are in order, any two of them are.
proof fn lemma_dated_in_order(stem: Seq<char>, names: Seq<Seq<char>>)
    requires
        vstd::relations::sorted_by(dated(stem, names), age_order(stem)),
    ensures
        forall|i: int, j: int|
            0 <= i < j < names.len() && is_dated(stem, #[trigger] names[i]) && is_dated(
                stem,
                #[trigger] names[j],
            ) ==> not_newer(stem, names[i], names[j]),
    decreases names.len(),
{
    if names.len() > 0 {
        let rest = names.drop_last();
        let leq = age_order(stem);
        let all = dated(stem, names);
        let fewer = dated(stem, rest);
        assert forall|i: int, j: int| 0 <= i < j < fewer.len() implies #[trigger] leq(
            fewer[i],
            fewer[j],
        ) by {
            assert(leq(all[i], all[j]));
        }
        lemma_dated_in_order(stem, rest);
        assert forall|i: int, j: int|
            0 <= i < j < names.len() && is_dated(stem, #[trigger] names[i]) && is_dated(
                stem,
                #[trigger] names[j],
            ) implies not_newer(stem, names[i], names[j]) by {
            assert(rest[i] == names[i]);
            if j < rest.len() {
                assert(rest[j] == names[j]);
            } else {
                lemma_dated_contains(stem, rest, i);
                let k = choose|k: int| 0 <= k < fewer.len() && fewer[k] == rest[i];
                assert(leq(all[k], all[all.len() - 1]));
            }
        }
    }
}

proof fn lemma_dated_contains(stem: Seq<char>, names: Seq<Seq<char>>, i: int)
    requires
        0 <= i < names.len(),
        is_dated(stem, names[i]),
    ensures
        dated(stem, names).contains(names[i]),
    decreases names.len(),
{
    let all = dated(stem, names);
    if i == names.len() - 1 {
        assert(all[all.len() - 1] == names[i]);
    } else {
        let rest = names.drop_last();
        lemma_dated_contains(stem, rest, i);
        let fewer = dated(stem, rest);
        let k = choose|k: int| 0 <= k < fewer.len() && fewer[k] == rest[i];
        assert(all[k] == names[i]);
    }
}

/// The names that tell an age are those of the given names that bear a stamp.
pub proof fn law_dated(stem: Seq<char>, names: Seq<Seq<char>>)
    ensures
        forall|name: Seq<char>| #[trigger]
            dated(stem, names).contains(name) <==> names.contains(name) && is_dated(stem, name),
        dated(stem, names).len() <= names.len(),
{
    assert forall|name: Seq<char>| #[trigger] dated(stem, names).contains(name) <==> names.contains(
        name,
    ) && is_dated(stem, name) by {
        lemma_dated_count(stem, names, name);
        vstd::seq_lib::to_multiset_contains(names, name);
        vstd::seq_lib::to_multiset_contains(dated(stem, names), name);
    }
    lemma_fewer_dated(stem, names, names.len() as int);
}

/// The names that tell an age in two parts are those of the one and of the other.
pub proof fn law_dated_in_parts(stem: Seq<char>, a: Seq<Seq<char>>, b: Seq<Seq<char>>)
    ensures
        dated(stem, a + b) == dated(stem, a) + dated(stem, b),
    decreases b.len(),
{
    if b.len() == 0 {
        assert(a + b =~= a);
        assert(dated(stem, a) + dated(stem, b) =~= dated(stem, a));
    } else {
        law_dated_in_parts(stem, a, b.drop_last());
        assert((a + b).drop_last() =~= a + b.drop_last());
        assert(dated(stem, a + b) =~= dated(stem, a) + dated(stem, b));
    }
}

/// The order of the text loses and adds no name, and no name in it comes before one that
/// its characters put before it.
pub proof fn law_by_text(names: Seq<Seq<char>>)
    ensures
        by_text(names).to_multiset() == names.to_multiset(),
        forall|i: int, j: int|
            0 <= i < j < by_text(names).len() ==> alphabetical(
                #[trigger] by_text(names)[i],
                #[trigger] by_text(names)[j],
            ),
{
    law_orders_are_total(Seq::empty());
    names.lemma_sort_by_ensures(text_order());
    let sorted = by_text(names);
    let leq = text_order();
    assert forall|i: int, j: int| 0 <= i < j < sorted.len() implies alphabetical(
        #[trigger] sorted[i],
        #[trigger] sorted[j],
    ) by {
        assert(leq(sorted[i], sorted[j]));
    }
}

/// The order of removal loses and adds no name. A name that tells no age has the
/// place that it has in the order of the text; of two names that tell one, the
/// earlier is not newer.
pub proof fn law_removal_order(stem: Seq<char>, names: Seq<Seq<char>>)
    ensures
        removal_order(stem, names).len() == names.len(),
        by_text(names).len() == names.len(),
        removal_order(stem, names).to_multiset() == names.to_multiset(),
        forall|name: Seq<char>| #[trigger]
            removal_order(stem, names).contains(name) <==> names.contains(name),
        names.no_duplicates() ==> removal_order(stem, names).no_duplicates(),
        dated(stem, removal_order(stem, names)).len() == dated(stem, names).len(),
        forall|i: int|
            0 <= i < names.len() ==> is_dated(stem, #[trigger] removal_order(stem, names)[i])
                == is_dated(stem, by_text(names)[i]),
        forall|i: int|
            0 <= i < names.len() && !is_dated(stem, by_text(names)[i]) ==> #[trigger] removal_order(
                stem,
                names,
            )[i] == by_text(names)[i],
        forall|i: int, j: int|
            0 <= i < j < names.len() && is_dated(stem, #[trigger] removal_order(stem, names)[i])
                && is_dated(stem, #[trigger] removal_order(stem, names)[j]) ==> not_newer(
                stem,
                removal_order(stem, names)[i],
                removal_order(stem, names)[j],
            ),
{
    let slots = by_text(names);
    let aged = by_age(stem, names);
    let order = removal_order(stem, names);
    law_orders_are_total(stem);
    names.lemma_sort_by_ensures(text_order());
    dated(stem, names).lemma_sort_by_ensures(age_order(stem));
    lemma_as_many_dated(stem, slots, names);
    vstd::seq_lib::to_multiset_len(aged);
    vstd::seq_lib::to_multiset_len(dated(stem, names));
    law_dated(stem, names);
    assert forall|i: int| 0 <= i < aged.len() implies is_dated(stem, #[trigger] aged[i]) by {
        assert(aged.contains(aged[i]));
        assert(dated(stem, names).contains(aged[i]));
    }
    lemma_refilled(stem, slots, aged);
    lemma_dated_in_order(stem, order);
    vstd::seq_lib::to_multiset_len(names);
    vstd::seq_lib::to_multiset_len(slots);
    assert forall|name: Seq<char>| #[trigger] order.contains(name) <==> names.contains(name) by {
        vstd::seq_lib::to_multiset_contains(names, name);
        vstd::seq_lib::to_multiset_contains(order, name);
    }
    if names.no_duplicates() {
        names.lemma_multiset_has_no_duplicates();
        order.lemma_multiset_has_no_duplicates_conv();
    }
}

/// Where the text of names that tell an age puts them in the order of their age, the
/// order of removal is that of the text.
pub proof fn law_removal_order_follows_the_text(stem: Seq<char>, names: Seq<Seq<char>>)
    requires
        vstd::relations::sorted_by(dated(stem, by_text(names)), age_order(stem)),
    ensures
        removal_order(stem, names) == by_text(names),
{
    let slots = by_text(names);
    law_orders_are_total(stem);
    names.lemma_sort_by_ensures(text_order());
    dated(stem, names).lemma_sort_by_ensures(age_order(stem));
    lemma_as_many_dated(stem, slots, names);
    vstd::seq_lib::lemma_sorted_unique(
        dated(stem, slots),
        by_age(stem, names),
        age_order(stem),
    );
    lemma_refilled_with_its_own(stem, slots);
}

proof fn lemma_refilled_with_its_own(stem: Seq<char>, slots: Seq<Seq<char>>)
    ensures
        refilled(stem, slots, dated(stem, slots)) == slots,
    decreases slots.len(),
{
    if slots.len() > 0 {
        let rest = slots.drop_last();
        lemma_refilled_with_its_own(stem, rest);
        assert(dated(stem, rest).push(slots.last()).drop_last() =~= dated(stem, rest));
        assert(rest.push(slots.last()) =~= slots);
    }
}

} // verus!
