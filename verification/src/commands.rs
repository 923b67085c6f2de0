//! The note files in the documents folder: naming a new file, telling
//! whether a path lies in the folder, and the listing tree of the folder.
use vstd::prelude::*;
use crate::paths::{
    char_vecs, components, components_less, components_of, file_name, file_name_of, has_file_name,
    is_plain_name, law_path_lt_in_folder, law_path_lt_names, lemma_path_order, path_lt,
    path_starts_with, proper_prefix, smaller_at, starts_with_path,
};
use crate::text::{chars_of, contains_chars, contains_seq, occurs_at, string_of};

verus! {

/// The text `Untitled`.
pub open spec fn untitled() -> Seq<char> {
    seq!['U', 'n', 't', 'i', 't', 'l', 'e', 'd']
}

/// The text `.md`.
pub open spec fn dot_md() -> Seq<char> {
    seq!['.', 'm', 'd']
}

/// What the pattern `Untitled(\d+)\.md` captures in its first group at the
/// leftmost place where it matches `name`, if anywhere.
pub uninterp spec fn untitled_capture(name: Seq<char>) -> Option<Seq<char>>;

/// `regex::Regex::new(r"Untitled(\d+)\.md")` and `Regex::captures`: the
/// text of the first capture group of the leftmost match in `name`.  What is
/// claimed: the result is `untitled_capture(name)`, and when there is one it
/// is not empty and `Untitled`, the capture and `.md` stand together in
/// `name`, as the pattern asks; and a name that is exactly `Untitled`, ASCII
/// digits and `.md` gives those digits.  Which other characters `\d`
/// accepts (Unicode decimal digits) is left unsaid.
#[verifier::external_body]
fn capture_untitled_number(name: &str) -> (r: Option<String>)
    ensures
        r is Some <==> untitled_capture(name@) is Some,
        r matches Some(d) ==> d@ == untitled_capture(name@)->0,
        r matches Some(d) ==> d@.len() > 0 && contains_seq(name@, untitled() + d@ + dot_md()),
        r is Some || !is_untitled_with_digits(name@),
        r matches Some(d) ==> (is_untitled_with_digits(name@) ==> d@ == digits_of_untitled(name@)),
{
    let matcher = regex::Regex::new(r"Untitled(\d+)\.md").unwrap();
    match matcher.captures(name) {
        Some(caps) => Some(caps[1].to_string()),
        None => None,
    }
}

/// The text between `Untitled` and `.md` in a name made of them.
pub open spec fn digits_of_untitled(name: Seq<char>) -> Seq<char> {
    name.subrange(8, name.len() - 3)
}

/// The name is exactly `Untitled`, one or more ASCII digits, and `.md`.
pub open spec fn is_untitled_with_digits(name: Seq<char>) -> bool {
    &&& name.len() > 11
    &&& name.take(8) == untitled()
    &&& name.skip(name.len() - 3) == dot_md()
    &&& is_ascii_digits(digits_of_untitled(name))
}

/// The views of a list of strings.
pub open spec fn views(v: Seq<String>) -> Seq<Seq<char>> {
    v.map_values(|s: String| s@)
}

/// The captures of the pattern in each name.
pub open spec fn captures_of(names: Seq<Seq<char>>) -> Seq<Option<Seq<char>>> {
    names.map_values(|n: Seq<char>| untitled_capture(n))
}

/// The value of a character that is an ASCII digit.
pub open spec fn digit_value(c: char) -> int {
    (c as int) - ('0' as int)
}

/// Every character is an ASCII digit, and there is at least one.
pub open spec fn is_ascii_digits(s: Seq<char>) -> bool {
    &&& s.len() > 0
    &&& forall|i: int| 0 <= i < s.len() ==> '0' <= #[trigger] s[i] <= '9'
}

/// The decimal value of a string of digits.
pub open spec fn decimal_value(s: Seq<char>) -> int
    decreases s.len(),
{
    if s.len() == 0 {
        0
    } else {
        decimal_value(s.drop_last()) * 10 + digit_value(s.last())
    }
}

/// What parsing a string as an `i32` gives, for a string without a sign:
/// its value when it is made of ASCII digits and the value fits.
pub open spec fn parsed_number(s: Seq<char>) -> Option<int> {
    if is_ascii_digits(s) && decimal_value(s) <= i32::MAX {
        Some(decimal_value(s))
    } else {
        None
    }
}

/// Every capture can be read as a number.
pub open spec fn captures_parse(caps: Seq<Option<Seq<char>>>) -> bool {
    forall|i: int| 0 <= i < caps.len() ==> (#[trigger] caps[i] matches Some(d) ==> parsed_number(d) is Some)
}

/// The greatest of 1 and the numbers read from the first `k` captures.
pub open spec fn highest_from(caps: Seq<Option<Seq<char>>>, k: int) -> int
    decreases k,
{
    if k <= 0 {
        1
    } else {
        let b = highest_from(caps, k - 1);
        match caps[k - 1] {
            Some(d) => if parsed_number(d)->0 > b { parsed_number(d)->0 } else { b },
            None => b,
        }
    }
}

proof fn lemma_decimal_value_nonneg(s: Seq<char>)
    requires
        forall|i: int| 0 <= i < s.len() ==> '0' <= #[trigger] s[i] <= '9',
    ensures
        decimal_value(s) >= 0,
    decreases s.len(),
{
    if s.len() > 0 {
        lemma_decimal_value_nonneg(s.drop_last());
    }
}

/// Parses a string as `str::parse::<i32>` does on text without a sign.
pub fn parse_number(s: &Vec<char>) -> (r: Option<i32>)
    ensures
        r is Some <==> parsed_number(s@) is Some,
        r matches Some(x) ==> x as int == parsed_number(s@)->0,
{
    if s.len() == 0 {
        return None;
    }
    let mut value: i64 = 0;
    let mut i: usize = 0;
    while i < s.len()
        invariant
            i <= s.len(),
            s.len() > 0,
            forall|j: int| 0 <= j < i ==> '0' <= #[trigger] s@[j] <= '9',
            value == decimal_value(s@.take(i as int)),
            0 <= value <= i32::MAX,
        decreases s.len() - i,
    {
        let c = s[i];
        if !('0' <= c && c <= '9') {
            assert(!is_ascii_digits(s@));
            return None;
        }
        let d = (c as u32 - '0' as u32) as i64;
        assert(s@.take(i + 1).drop_last() =~= s@.take(i as int));
        let next = value * 10 + d;
        if next > i32::MAX as i64 {
            proof {
                assert(decimal_value(s@.take(i + 1)) > i32::MAX);
                lemma_decimal_prefix_grows(s@, i + 1);
            }
            return None;
        }
        value = next;
        i = i + 1;
    }
    assert(s@.take(s.len() as int) =~= s@);
    Some(value as i32)
}

proof fn lemma_decimal_prefix_grows(s: Seq<char>, k: int)
    requires
        0 < k <= s.len(),
        forall|i: int| 0 <= i < k ==> '0' <= #[trigger] s[i] <= '9',
        decimal_value(s.take(k)) > i32::MAX,
    ensures
        !(is_ascii_digits(s) && decimal_value(s) <= i32::MAX),
    decreases s.len() - k,
{
    if is_ascii_digits(s) && k < s.len() {
        let t = s.take(k + 1);
        assert(t.drop_last() =~= s.take(k));
        lemma_decimal_value_nonneg(s.take(k));
        assert(decimal_value(t) >= decimal_value(s.take(k)) * 10);
        lemma_decimal_prefix_grows(s, k + 1);
    }
    if k == s.len() {
        assert(s.take(k) =~= s);
    }
}

proof fn lemma_highest_bounds(caps: Seq<Option<Seq<char>>>, k: int)
    requires
        0 <= k <= caps.len(),
        captures_parse(caps),
    ensures
        1 <= highest_from(caps, k) <= i32::MAX,
        forall|i: int| 0 <= i < k ==> (#[trigger] caps[i] matches Some(d) ==> parsed_number(d)->0 <= highest_from(caps, k)),
        highest_from(caps, k) == 1 || exists|i: int| 0 <= i < k && (#[trigger] caps[i] matches Some(d) && parsed_number(d)->0 == highest_from(caps, k)),
    decreases k,
{
    if k > 0 {
        lemma_highest_bounds(caps, k - 1);
        assert(caps[k - 1] matches Some(d) ==> parsed_number(d) is Some);
        if highest_from(caps, k) != 1 && highest_from(caps, k) == highest_from(caps, k - 1) {
            let i = choose|i: int| 0 <= i < k - 1 && (#[trigger] caps[i] matches Some(d) && parsed_number(d)->0 == highest_from(caps, k - 1));
            assert(0 <= i < k && (caps[i] matches Some(d) && parsed_number(d)->0 == highest_from(caps, k)));
        }
        match caps[k - 1] {
            Some(d) => {
                lemma_decimal_value_nonneg(d);
            },
            None => {},
        }
    }
}

/// The greatest of 1 and the numbers read from the captures; nothing when a
/// capture cannot be read as an `i32`.
pub fn highest_number_in_captures(caps: &Vec<Option<String>>) -> (r: Option<i32>)
    ensures
        ({
            let cs = caps@.map_values(|c: Option<String>| match c { Some(s) => Some(s@), None => None });
            if captures_parse(cs) {
                r == Some(highest_from(cs, cs.len() as int) as i32)
            } else {
                r is None
            }
        }),
{
    let ghost cs = caps@.map_values(|c: Option<String>| match c { Some(s) => Some(s@), None => None });
    let mut b: i32 = 1;
    let mut i: usize = 0;
    while i < caps.len()
        invariant
            i <= caps.len(),
            cs == caps@.map_values(|c: Option<String>| match c { Some(s) => Some(s@), None => None }),
            cs.len() == caps.len(),
            forall|j: int| 0 <= j < i ==> (#[trigger] cs[j] matches Some(d) ==> parsed_number(d) is Some),
            b == highest_from(cs, i as int),
        decreases caps.len() - i,
    {
        match &caps[i] {
            Some(d) => {
                assert(cs[i as int] == Some(d@));
                let dv = chars_of(d.as_str());
                match parse_number(&dv) {
                    Some(v) => {
                        if v > b {
                            b = v;
                        }
                    },
                    None => {
                        assert(!captures_parse(cs)) by {
                            assert(cs[i as int] == Some(d@));
                        }
                        return None;
                    },
                }
            },
            None => {
                assert(cs[i as int] is None);
            },
        }
        i = i + 1;
    }
    Some(b)
}

/// The number after `Untitled` in the names of the folder: the greatest of 1
/// and the numbers that the pattern `Untitled(\d+)\.md` finds in the names.
/// Each number found must be an `i32` made of ASCII digits.
pub fn find_highest_number_file(collected_dir: &Vec<String>) -> (r: i32)
    requires
        captures_parse(captures_of(views(collected_dir@))),
    ensures
        r == highest_from(captures_of(views(collected_dir@)), collected_dir@.len() as int),
        r >= 1,
        forall|i: int| 0 <= i < collected_dir@.len() ==> (#[trigger] untitled_capture(collected_dir@[i]@) matches Some(d)
            ==> parsed_number(d)->0 <= r),
        r == 1 || exists|i: int| 0 <= i < collected_dir@.len() && (#[trigger] untitled_capture(collected_dir@[i]@) matches Some(d)
            && parsed_number(d)->0 == r),
{
    let ghost cs = captures_of(views(collected_dir@));
    let mut caps: Vec<Option<String>> = Vec::new();
    let mut i: usize = 0;
    while i < collected_dir.len()
        invariant
            i <= collected_dir.len(),
            cs == captures_of(views(collected_dir@)),
            caps@.len() == i,
            forall|j: int| 0 <= j < i ==> (#[trigger] caps@[j] matches Some(s) ==> cs[j] == Some(s@)) && (caps@[j] is None ==> cs[j] is None),
        decreases collected_dir.len() - i,
    {
        let c = capture_untitled_number(collected_dir[i].as_str());
        caps.push(c);
        i = i + 1;
    }
    let ghost mapped = caps@.map_values(|c: Option<String>| match c { Some(s) => Some(s@), None => None });
    assert(mapped =~= cs);
    let r = highest_number_in_captures(&caps);
    proof {
        lemma_highest_bounds(cs, cs.len() as int);
        assert forall|i: int| 0 <= i < collected_dir@.len() implies (#[trigger] untitled_capture(collected_dir@[i]@) matches Some(d)
            ==> parsed_number(d)->0 <= highest_from(cs, cs.len() as int)) by {
            assert(cs[i] == untitled_capture(collected_dir@[i]@));
        }
        if highest_from(cs, cs.len() as int) != 1 {
            let i = choose|i: int| 0 <= i < cs.len() && (#[trigger] cs[i] matches Some(d) && parsed_number(d)->0 == highest_from(cs, cs.len() as int));
            assert(cs[i] == untitled_capture(collected_dir@[i]@));
        }
    }
    r.unwrap()
}

/// As `find_highest_number_file`, or nothing when a number found is not an
/// `i32` made of ASCII digits.
pub fn try_find_highest_number_file(collected_dir: &Vec<String>) -> (r: Option<i32>)
    ensures
        captures_parse(captures_of(views(collected_dir@))) ==>
            r == Some(highest_from(captures_of(views(collected_dir@)), collected_dir@.len() as int) as i32),
        !captures_parse(captures_of(views(collected_dir@))) ==> r is None,
{
    let ghost cs = captures_of(views(collected_dir@));
    let mut i: usize = 0;
    while i < collected_dir.len()
        invariant
            i <= collected_dir.len(),
            cs == captures_of(views(collected_dir@)),
            forall|j: int| 0 <= j < i ==> (#[trigger] cs[j] matches Some(d) ==> parsed_number(d) is Some),
        decreases collected_dir.len() - i,
    {
        match capture_untitled_number(collected_dir[i].as_str()) {
            Some(d) => {
                let dv = chars_of(d.as_str());
                if parse_number(&dv).is_none() {
                    assert(!captures_parse(cs)) by {
                        assert(cs[i as int] == Some(d@));
                    }
                    return None;
                }
            },
            None => {},
        }
        i = i + 1;
    }
    Some(find_highest_number_file(collected_dir))
}


/// The names that contain `Untitled`, in order.
pub open spec fn untitled_names(names: Seq<Seq<char>>) -> Seq<Seq<char>>
    decreases names.len(),
{
    if names.len() == 0 {
        Seq::empty()
    } else {
        let r = untitled_names(names.drop_last());
        if contains_seq(names.last(), untitled()) {
            r.push(names.last())
        } else {
            r
        }
    }
}

/// The character of a decimal digit.
pub open spec fn digit_char(d: int) -> char {
    if d == 0 { '0' } else if d == 1 { '1' } else if d == 2 { '2' } else if d == 3 { '3' } else if d == 4 { '4' }
    else if d == 5 { '5' } else if d == 6 { '6' } else if d == 7 { '7' } else if d == 8 { '8' } else { '9' }
}

/// The decimal digits of `n`, without leading zeros.
pub open spec fn decimal(n: nat) -> Seq<char>
    decreases n,
{
    if n < 10 {
        seq![digit_char(n as int)]
    } else {
        decimal(n / 10).push(digit_char((n % 10) as int))
    }
}

/// The number that names the next untitled file: one more than the greatest
/// number found in the names that contain `Untitled`.
pub open spec fn next_untitled_number(names: Seq<Seq<char>>) -> int {
    let c = untitled_names(names);
    highest_from(captures_of(c), c.len() as int) + 1
}

/// The name of the next untitled file: `Untitled.md` when no name contains
/// `Untitled`, else `Untitled` followed by `next_untitled_number` and `.md`.
pub open spec fn new_file_name(names: Seq<Seq<char>>) -> Seq<char> {
    if untitled_names(names).len() == 0 {
        untitled() + dot_md()
    } else {
        untitled() + decimal(next_untitled_number(names) as nat) + dot_md()
    }
}

/// A new file can be named: the numbers found read as `i32`s, and one more
/// than their greatest is an `i32` too.
pub open spec fn new_file_nameable(names: Seq<Seq<char>>) -> bool {
    let c = untitled_names(names);
    c.len() > 0 ==> {
        &&& captures_parse(captures_of(c))
        &&& highest_from(captures_of(c), c.len() as int) < i32::MAX
    }
}

fn digit_char_of(d: u32) -> (r: char)
    requires
        d < 10,
    ensures
        r == digit_char(d as int),
{
    if d == 0 { '0' } else if d == 1 { '1' } else if d == 2 { '2' } else if d == 3 { '3' } else if d == 4 { '4' }
    else if d == 5 { '5' } else if d == 6 { '6' } else if d == 7 { '7' } else if d == 8 { '8' } else { '9' }
}

/// Appends the decimal digits of `n` to `out`.
pub fn push_decimal(out: &mut Vec<char>, n: u32)
    ensures
        final(out)@ == old(out)@ + decimal(n as nat),
    decreases n,
{
    if n < 10 {
        out.push(digit_char_of(n));
    } else {
        push_decimal(out, n / 10);
        out.push(digit_char_of(n % 10));
        assert(decimal(n as nat) == decimal((n / 10) as nat).push(digit_char((n % 10) as int)));
    }
}

fn push_untitled(out: &mut Vec<char>)
    ensures
        final(out)@ == old(out)@ + untitled(),
{
    out.push('U');
    out.push('n');
    out.push('t');
    out.push('i');
    out.push('t');
    out.push('l');
    out.push('e');
    out.push('d');
    assert(final(out)@ =~= old(out)@ + untitled());
}

fn push_dot_md(out: &mut Vec<char>)
    ensures
        final(out)@ == old(out)@ + dot_md(),
{
    out.push('.');
    out.push('m');
    out.push('d');
    assert(final(out)@ =~= old(out)@ + dot_md());
}

/// The names that contain `Untitled`.
pub fn collect_untitled(file_names: &Vec<String>) -> (r: Vec<String>)
    ensures
        views(r@) == untitled_names(views(file_names@)),
{
    let mut u: Vec<char> = Vec::new();
    push_untitled(&mut u);
    assert(u@ =~= untitled());
    let mut r: Vec<String> = Vec::new();
    let mut i: usize = 0;
    while i < file_names.len()
        invariant
            i <= file_names.len(),
            u@ == untitled(),
            views(r@) == untitled_names(views(file_names@.take(i as int))),
        decreases file_names.len() - i,
    {
        let name = chars_of(file_names[i].as_str());
        let ghost before = r@;
        assert(views(file_names@.take(i + 1)).drop_last() =~= views(file_names@.take(i as int)));
        assert(views(file_names@.take(i + 1)).last() == file_names@[i as int]@);
        if contains_chars(&name, &u) {
            r.push(file_names[i].clone());
            assert(views(r@) =~= views(before).push(file_names@[i as int]@));
        }
        i = i + 1;
    }
    assert(file_names@.take(file_names.len() as int) =~= file_names@);
    r
}

proof fn lemma_digit_char(d: int)
    requires
        0 <= d < 10,
    ensures
        '0' <= digit_char(d) <= '9',
        digit_value(digit_char(d)) == d,
{
}

/// The digits of `n` are ASCII digits whose value is `n`.
proof fn lemma_decimal(n: nat)
    ensures
        is_ascii_digits(decimal(n)),
        decimal_value(decimal(n)) == n,
    decreases n,
{
    let s = decimal(n);
    if n < 10 {
        lemma_digit_char(n as int);
        assert(s.drop_last() =~= Seq::<char>::empty());
        assert(decimal_value(s.drop_last()) == 0);
        assert(decimal_value(s) == digit_value(s.last()));
    } else {
        lemma_decimal(n / 10);
        lemma_digit_char((n % 10) as int);
        let t = decimal(n / 10);
        assert(s.drop_last() =~= t);
        assert(s.last() == digit_char((n % 10) as int));
        assert forall|i: int| 0 <= i < s.len() implies '0' <= #[trigger] s[i] <= '9' by {
            if i < s.len() - 1 {
                assert(s[i] == t[i]);
            }
        }
        assert(decimal_value(s) == decimal_value(t) * 10 + digit_value(digit_char((n % 10) as int)));
        assert((n / 10) * 10 + n % 10 == n);
    }
}

proof fn lemma_untitled_names_contains(names: Seq<Seq<char>>, x: Seq<char>)
    requires
        names.contains(x),
        contains_seq(x, untitled()),
    ensures
        untitled_names(names).contains(x),
    decreases names.len(),
{
    let r = untitled_names(names.drop_last());
    if names.last() == x {
        assert(untitled_names(names) == r.push(x));
        assert(untitled_names(names)[r.len() as int] == x);
    } else {
        let i = choose|i: int| 0 <= i < names.len() && names[i] == x;
        assert(names.drop_last()[i] == x);
        lemma_untitled_names_contains(names.drop_last(), x);
        let k = choose|k: int| 0 <= k < r.len() && r[k] == x;
        if contains_seq(names.last(), untitled()) {
            assert(untitled_names(names)[k] == x);
        }
    }
}

proof fn lemma_untitled_with_digits(d: Seq<char>)
    requires
        is_ascii_digits(d),
    ensures
        is_untitled_with_digits(untitled() + d + dot_md()),
        digits_of_untitled(untitled() + d + dot_md()) == d,
{
    let name = untitled() + d + dot_md();
    assert(name.take(8) =~= untitled());
    assert(name.skip(name.len() - 3) =~= dot_md());
    assert(digits_of_untitled(name) =~= d);
}

/// The name of the next untitled file is none of the names of the folder,
/// so creating it overwrites no file.  This rests on the pattern reading in
/// the new name the number written there.
pub proof fn law_new_file_name_is_fresh(names: Seq<Seq<char>>)
    requires
        new_file_nameable(names),
        untitled_names(names).len() > 0
            ==> untitled_capture(new_file_name(names)) == Some(decimal(next_untitled_number(names) as nat)),
    ensures
        !names.contains(new_file_name(names)),
{
    let nm = new_file_name(names);
    let c = untitled_names(names);
    assert(occurs_at(nm, untitled(), 0)) by {
        assert(nm.subrange(0, 8) =~= untitled());
    }
    if names.contains(nm) {
        lemma_untitled_names_contains(names, nm);
        let i = choose|i: int| 0 <= i < c.len() && c[i] == nm;
        let caps = captures_of(c);
        let n = next_untitled_number(names);
        lemma_highest_bounds(caps, c.len() as int);
        lemma_decimal(n as nat);
        assert(caps[i] == untitled_capture(nm));
        assert(parsed_number(decimal(n as nat)) == Some(n));
    }
}

/// The name of the next untitled file, `new_file_name`, as characters.
fn untitled_name(file_names: &Vec<String>) -> (name: Vec<char>)
    requires
        new_file_nameable(views(file_names@)),
    ensures
        name@ == new_file_name(views(file_names@)),
        untitled_names(views(file_names@)).len() > 0 ==> untitled_capture(name@) == Some(decimal(next_untitled_number(views(file_names@)) as nat)),
{
    let ghost names = views(file_names@);
    let collected_dir = collect_untitled(file_names);
    let mut name: Vec<char> = Vec::new();
    push_untitled(&mut name);
    if collected_dir.len() > 0 {
        let val: i32 = find_highest_number_file(&collected_dir);
        push_decimal(&mut name, (val + 1) as u32);
        push_dot_md(&mut name);
        assert(name@ =~= new_file_name(names));
        // The pattern reads back the number of the new name, which is what
        // keeps the name apart from every numbered name of the folder.
        let name_text = string_of(&name);
        let read_back = capture_untitled_number(name_text.as_str());
        proof {
            let d = decimal(next_untitled_number(names) as nat);
            lemma_decimal(next_untitled_number(names) as nat);
            lemma_untitled_with_digits(d);
        }
    } else {
        push_dot_md(&mut name);
        assert(name@ =~= new_file_name(names));
    }
    name
}

/// The path of the next untitled file in the folder `docs_path` whose files
/// are named `file_names`: the folder, a separator and `new_file_name`, which
/// is none of `file_names`.
pub fn new_untitled_file_path(docs_path: &str, file_names: &Vec<String>) -> (r: String)
    requires
        new_file_nameable(views(file_names@)),
    ensures
        r@ == docs_path@ + seq!['/'] + new_file_name(views(file_names@)),
        !views(file_names@).contains(new_file_name(views(file_names@))),
{
    let name = untitled_name(file_names);
    proof {
        law_new_file_name_is_fresh(views(file_names@));
    }
    let mut path = chars_of(docs_path);
    path.push('/');
    crate::text::extend_from_range(&mut path, &name, 0, name.len());
    assert(name@.subrange(0, name.len() as int) =~= name@);
    assert(path@ =~= docs_path@ + seq!['/'] + new_file_name(views(file_names@)));
    string_of(&path)
}

/// As `new_untitled_file_path`, or nothing when no new file can be named
/// (see `new_file_nameable`).
pub fn try_new_untitled_file_path(docs_path: &str, file_names: &Vec<String>) -> (r: Option<String>)
    ensures
        new_file_nameable(views(file_names@)) ==>
            (r matches Some(p) && p@ == docs_path@ + seq!['/'] + new_file_name(views(file_names@))),
        r is Some ==> !views(file_names@).contains(new_file_name(views(file_names@))),
        !new_file_nameable(views(file_names@)) ==> r is None,
{
    let collected_dir = collect_untitled(file_names);
    proof {
        let cs = captures_of(views(collected_dir@));
        if captures_parse(cs) {
            lemma_highest_bounds(cs, cs.len() as int);
        }
    }
    if collected_dir.len() > 0 {
        match try_find_highest_number_file(&collected_dir) {
            None => {
                return None;
            },
            Some(val) => {
                if val == i32::MAX {
                    return None;
                }
            },
        }
    }
    Some(new_untitled_file_path(docs_path, file_names))
}


/// Whether `path` lies in the folder `docs_path`: its components start with
/// the folder's.
pub fn path_in_docs(docs_path: &str, path: &str) -> (r: bool)
    ensures
        r == path_starts_with(path@, docs_path@),
{
    let d = chars_of(docs_path);
    let p = chars_of(path);
    starts_with_path(&p, &d)
}

/// What the folder holds, as read from the disk: a file by its path, or a
/// folder by its path and its entries in the order they were read.
#[derive(Debug)]
pub enum DirListing {
    File(String),
    Dir(String, Vec<DirListing>),
}

/// A listing, as values.
pub ghost enum ListingModel {
    File(Seq<char>),
    Dir(Seq<char>, Seq<ListingModel>),
}

impl DirListing {
    /// The listing as values.
    pub open spec fn model(&self) -> ListingModel
        decreases self,
    {
        match self {
            DirListing::File(p) => ListingModel::File(p@),
            DirListing::Dir(p, es) => ListingModel::Dir(p@, listing_models(es@)),
        }
    }
}

/// A list of listings as values.
pub open spec fn listing_models(es: Seq<DirListing>) -> Seq<ListingModel>
    decreases es,
{
    Seq::new(es.len(), |i: int| if 0 <= i < es.len() { es[i].model() } else { ListingModel::File(Seq::empty()) })
}

/// The path of a listing.
pub open spec fn listing_path(l: ListingModel) -> Seq<char> {
    match l {
        ListingModel::File(p) => p,
        ListingModel::Dir(p, _) => p,
    }
}

/// The paths of a list of listings.
pub open spec fn listing_paths(es: Seq<ListingModel>) -> Seq<Seq<char>> {
    es.map_values(|e: ListingModel| listing_path(e))
}

/// Index `j` inserted into the sorted indices `sorted`: after every index
/// whose path does not come after the path of `j`.
pub open spec fn insert_index(sorted: Seq<int>, j: int, keys: Seq<Seq<char>>) -> Seq<int>
    decreases sorted.len(),
{
    if sorted.len() == 0 {
        seq![j]
    } else if path_lt(keys[j], keys[sorted.last()]) {
        insert_index(sorted.drop_last(), j, keys).push(sorted.last())
    } else {
        sorted.push(j)
    }
}

/// The indices `0..n` in the order of their paths, equal paths in their
/// first order: the order of a stable sort by path.
pub open spec fn sorted_indices(keys: Seq<Seq<char>>, n: int) -> Seq<int>
    decreases n,
{
    if n <= 0 {
        Seq::empty()
    } else {
        insert_index(sorted_indices(keys, n - 1), n - 1, keys)
    }
}

/// The tree that lists a folder, as values.
#[verifier::ext_equal]
pub ghost struct FileTreeModel {
    pub is_dir: bool,
    pub path_from_docs: Seq<char>,
    pub files: Seq<FileTreeModel>,
    pub name: Seq<char>,
}

/// The tree of a listing: a file with no entries, or a folder whose entries
/// are the trees of its entries sorted by path; each named by the file name
/// of its path.
pub open spec fn file_tree_of(l: ListingModel) -> FileTreeModel
    decreases l, 0int,
{
    match l {
        ListingModel::File(p) => FileTreeModel { is_dir: false, path_from_docs: p, files: Seq::empty(), name: file_name(p) },
        ListingModel::Dir(p, es) => FileTreeModel {
            is_dir: true,
            path_from_docs: p,
            files: tree_files(es, sorted_indices(listing_paths(es), es.len() as int), es.len() as int),
            name: file_name(p),
        },
    }
}

/// The trees of the entries `es[perm[0]], .., es[perm[k - 1]]`.
pub open spec fn tree_files(es: Seq<ListingModel>, perm: Seq<int>, k: int) -> Seq<FileTreeModel>
    decreases es, k,
{
    if k <= 0 || k > perm.len() {
        Seq::empty()
    } else {
        let j = perm[k - 1];
        let rest = tree_files(es, perm, k - 1);
        if 0 <= j < es.len() {
            rest.push(file_tree_of(es[j]))
        } else {
            rest
        }
    }
}

/// Every path in the listing has a file name.
pub open spec fn listing_named(l: ListingModel) -> bool
    decreases l,
{
    match l {
        ListingModel::File(p) => has_file_name(p),
        ListingModel::Dir(p, es) => has_file_name(p) && forall|i: int| 0 <= i < es.len() ==> listing_named(#[trigger] es[i]),
    }
}

/// The tree that lists a folder.
#[derive(Debug)]
pub struct FileTree {
    pub is_dir: bool,
    pub path_from_docs: String,
    pub files: Vec<FileTree>,
    pub name: String,
}

impl FileTree {
    /// The tree as values.
    pub open spec fn model(&self) -> FileTreeModel
        decreases self,
    {
        FileTreeModel {
            is_dir: self.is_dir,
            path_from_docs: self.path_from_docs@,
            files: file_tree_models(self.files@),
            name: self.name@,
        }
    }
}

/// A list of trees as values.
pub open spec fn file_tree_models(v: Seq<FileTree>) -> Seq<FileTreeModel>
    decreases v,
{
    Seq::new(v.len(), |i: int| if 0 <= i < v.len() { v[i].model() } else { FileTreeModel { is_dir: false, path_from_docs: Seq::empty(), files: Seq::empty(), name: Seq::empty() } })
}

proof fn lemma_insert_index_scan(s: Seq<int>, j: int, keys: Seq<Seq<char>>, pos: int)
    requires
        0 < pos <= s.len(),
        path_lt(keys[j], keys[s[pos - 1]]),
    ensures
        insert_index(s.take(pos), j, keys) + s.skip(pos) == insert_index(s.take(pos - 1), j, keys) + s.skip(pos - 1),
{
    assert(s.take(pos).drop_last() =~= s.take(pos - 1));
    assert(s.take(pos).last() == s[pos - 1]);
    assert(insert_index(s.take(pos), j, keys) == insert_index(s.take(pos - 1), j, keys).push(s[pos - 1]));
    assert(insert_index(s.take(pos - 1), j, keys).push(s[pos - 1]) + s.skip(pos) =~= insert_index(s.take(pos - 1), j, keys) + s.skip(pos - 1));
}

/// The indices `s` are in path order: none has a path before that of an
/// index in front of it, and indices with paths in neither order keep their
/// own order.
pub open spec fn stably_sorted(keys: Seq<Seq<char>>, s: Seq<int>) -> bool {
    &&& forall|a: int, b: int| 0 <= a < b < s.len() ==> !path_lt(#[trigger] keys[s[b]], #[trigger] keys[s[a]])
    &&& forall|a: int, b: int| 0 <= a < b < s.len() && !path_lt(#[trigger] keys[s[a]], #[trigger] keys[s[b]]) ==> s[a] < s[b]
}

/// `s` lists each of `0..n` once.
pub open spec fn is_permutation(s: Seq<int>, n: int) -> bool {
    &&& s.len() == n
    &&& forall|a: int| 0 <= a < s.len() ==> 0 <= #[trigger] s[a] < n
    &&& forall|a: int, b: int| 0 <= a < b < s.len() ==> #[trigger] s[a] != #[trigger] s[b]
}

proof fn lemma_insert_index_shape(s: Seq<int>, j: int, keys: Seq<Seq<char>>)
    ensures
        exists|m: int| 0 <= m <= s.len() && insert_index(s, j, keys) == s.take(m) + seq![j] + s.skip(m),
    decreases s.len(),
{
    let r = insert_index(s, j, keys);
    if s.len() == 0 {
        assert(r =~= s.take(0) + seq![j] + s.skip(0));
    } else if path_lt(keys[j], keys[s.last()]) {
        let s2 = s.drop_last();
        lemma_insert_index_shape(s2, j, keys);
        let m = choose|m: int| 0 <= m <= s2.len() && insert_index(s2, j, keys) == s2.take(m) + seq![j] + s2.skip(m);
        assert(r =~= s.take(m) + seq![j] + s.skip(m));
    } else {
        assert(r =~= s.take(s.len() as int) + seq![j] + s.skip(s.len() as int));
    }
}

proof fn lemma_insert_index_sorted(s: Seq<int>, j: int, keys: Seq<Seq<char>>)
    requires
        forall|a: int| 0 <= a < s.len() ==> #[trigger] s[a] < j,
        stably_sorted(keys, s),
    ensures
        stably_sorted(keys, insert_index(s, j, keys)),
    decreases s.len(),
{
    let r = insert_index(s, j, keys);
    if s.len() == 0 {
        assert(r == seq![j]);
    } else if path_lt(keys[j], keys[s.last()]) {
        let s2 = s.drop_last();
        let last = s.last();
        lemma_insert_index_sorted(s2, j, keys);
        lemma_insert_index_shape(s2, j, keys);
        let r2 = insert_index(s2, j, keys);
        let m = choose|m: int| 0 <= m <= s2.len() && r2 == s2.take(m) + seq![j] + s2.skip(m);
        assert(r == r2.push(last));
        assert forall|a: int| 0 <= a < r2.len() implies #[trigger] r2[a] == j || r2[a] == s[if a < m { a } else { a - 1 }] by {
            if a < m {
                assert(r2[a] == s2[a]);
            } else if a > m {
                assert(r2[a] == s2[a - 1]);
            }
        }
        assert forall|a: int, b: int| 0 <= a < b < r.len() implies !path_lt(#[trigger] keys[r[b]], #[trigger] keys[r[a]]) by {
            if b == r.len() - 1 {
                assert(r[b] == last);
                assert(r[a] == r2[a]);
                if r2[a] == j {
                    lemma_path_order(keys[j], keys[last], keys[j]);
                } else {
                    let t = if a < m { a } else { a - 1 };
                    assert(r2[a] == s[t]);
                    assert(s[s.len() - 1] == last);
                    assert(!path_lt(keys[s[s.len() - 1]], keys[s[t]]));
                }
            } else {
                assert(r[a] == r2[a] && r[b] == r2[b]);
            }
        }
        assert forall|a: int, b: int| 0 <= a < b < r.len() && !path_lt(#[trigger] keys[r[a]], #[trigger] keys[r[b]]) implies r[a] < r[b] by {
            if b == r.len() - 1 {
                assert(r[b] == last);
                assert(r[a] == r2[a]);
                if r2[a] != j {
                    let t = if a < m { a } else { a - 1 };
                    assert(r2[a] == s[t]);
                    assert(s[s.len() - 1] == last);
                    assert(s[t] < s[s.len() - 1]);
                }
            } else {
                assert(r[a] == r2[a] && r[b] == r2[b]);
            }
        }
    } else {
        let last = s.last();
        assert(r == s.push(j));
        assert forall|a: int, b: int| 0 <= a < b < r.len() implies !path_lt(#[trigger] keys[r[b]], #[trigger] keys[r[a]]) by {
            if b == r.len() - 1 {
                assert(r[a] == s[a]);
                if a < s.len() - 1 {
                    assert(!path_lt(keys[s[s.len() - 1]], keys[s[a]]));
                }
                lemma_path_order(keys[s[a]], keys[last], keys[j]);
            } else {
                assert(r[a] == s[a] && r[b] == s[b]);
            }
        }
        assert forall|a: int, b: int| 0 <= a < b < r.len() && !path_lt(#[trigger] keys[r[a]], #[trigger] keys[r[b]]) implies r[a] < r[b] by {
            if b == r.len() - 1 {
                assert(r[a] == s[a]);
            } else {
                assert(r[a] == s[a] && r[b] == s[b]);
            }
        }
    }
}

/// The order that `sorted_indices` gives is that of a stable sort by path:
/// each index of `0..n` once, in path order, equal paths in index order.
pub proof fn law_sorted_indices(keys: Seq<Seq<char>>, n: int)
    requires
        0 <= n,
    ensures
        is_permutation(sorted_indices(keys, n), n),
        stably_sorted(keys, sorted_indices(keys, n)),
    decreases n,
{
    if n > 0 {
        law_sorted_indices(keys, n - 1);
        let s = sorted_indices(keys, n - 1);
        let j = n - 1;
        lemma_insert_index_sorted(s, j, keys);
        lemma_insert_index_shape(s, j, keys);
        let r = sorted_indices(keys, n);
        let m = choose|m: int| 0 <= m <= s.len() && insert_index(s, j, keys) == s.take(m) + seq![j] + s.skip(m);
        assert(r == s.take(m) + seq![j] + s.skip(m));
        assert forall|a: int| 0 <= a < r.len() implies (#[trigger] r[a] == j && a == m) || (a != m && r[a] == s[if a < m { a } else { a - 1 }]) by {
            if a < m {
                assert(r[a] == s[a]);
            } else if a > m {
                assert(r[a] == s[a - 1]);
            }
        }
        assert forall|a: int, b: int| 0 <= a < b < r.len() implies #[trigger] r[a] != #[trigger] r[b] by {
            let ta = if a < m { a } else { a - 1 };
            let tb = if b < m { b } else { b - 1 };
            if a != m && b != m {
                assert(ta < tb);
                assert(s[ta] != s[tb]);
            } else if a == m {
                assert(s[tb] < j);
            } else {
                assert(s[ta] < j);
            }
        }
    }
}

/// The trees of the entries `es[perm[0]], .., es[perm[k - 1]]`, one by one.
proof fn lemma_tree_files(es: Seq<ListingModel>, perm: Seq<int>, k: int)
    requires
        0 <= k <= perm.len(),
        forall|a: int| 0 <= a < perm.len() ==> 0 <= #[trigger] perm[a] < es.len(),
    ensures
        tree_files(es, perm, k).len() == k,
        forall|a: int| 0 <= a < k ==> #[trigger] tree_files(es, perm, k)[a] == file_tree_of(es[perm[a]]),
    decreases k,
{
    if k > 0 {
        lemma_tree_files(es, perm, k - 1);
    }
}

/// The entries of a folder's tree are the trees of the folder's entries,
/// each once, in path order, with equal paths in the order they were read.
pub proof fn law_file_tree_sorted(path: Seq<char>, es: Seq<ListingModel>)
    ensures
        ({
            let files = file_tree_of(ListingModel::Dir(path, es)).files;
            &&& files.len() == es.len()
            &&& exists|perm: Seq<int>| is_permutation(perm, es.len() as int)
                && forall|a: int| 0 <= a < files.len() ==> #[trigger] files[a] == file_tree_of(es[perm[a]])
            &&& forall|a: int, b: int| 0 <= a < b < files.len()
                ==> !path_lt(#[trigger] files[b].path_from_docs, #[trigger] files[a].path_from_docs)
        }),
{
    let keys = listing_paths(es);
    let perm = sorted_indices(keys, es.len() as int);
    law_sorted_indices(keys, es.len() as int);
    lemma_tree_files(es, perm, es.len() as int);
    let files = file_tree_of(ListingModel::Dir(path, es)).files;
    assert(files == tree_files(es, perm, es.len() as int));
    assert forall|a: int| 0 <= a < files.len() implies #[trigger] files[a].path_from_docs == keys[perm[a]] by {
        assert(files[a] == file_tree_of(es[perm[a]]));
        assert(keys[perm[a]] == listing_path(es[perm[a]]));
    }
    assert forall|a: int, b: int| 0 <= a < b < files.len()
        implies !path_lt(#[trigger] files[b].path_from_docs, #[trigger] files[a].path_from_docs) by {
        assert(files[a].path_from_docs == keys[perm[a]]);
        assert(files[b].path_from_docs == keys[perm[b]]);
    }
}

/// The name of an entry of the folder `d`: its path after `d` and a separator.
pub open spec fn name_in(d: Seq<char>, p: Seq<char>) -> Seq<char> {
    p.skip(d.len() as int + 1)
}

/// The path `p` is `d`, a separator, and a plain name.
pub open spec fn is_entry_of(d: Seq<char>, p: Seq<char>) -> bool {
    &&& p.len() > d.len()
    &&& p.take(d.len() as int + 1) == d + seq!['/']
    &&& is_plain_name(name_in(d, p))
}

/// When the entries of a folder are named by plain names in the folder `d`,
/// its tree lists them in the lexicographic order of their names: no name
/// comes before the one listed ahead of it, at the first differing
/// character or as a proper prefix.
pub proof fn law_file_tree_names_sorted(path: Seq<char>, es: Seq<ListingModel>, d: Seq<char>)
    requires
        forall|i: int| 0 <= i < es.len() ==> is_entry_of(d, listing_path(#[trigger] es[i])),
    ensures
        ({
            let files = file_tree_of(ListingModel::Dir(path, es)).files;
            forall|a: int, b: int| #![trigger files[a], files[b]] 0 <= a < b < files.len() ==> {
                let na = name_in(d, files[a].path_from_docs);
                let nb = name_in(d, files[b].path_from_docs);
                !((exists|i: int| #[trigger] smaller_at(nb, na, i)) || proper_prefix(nb, na))
            }
        }),
{
    law_file_tree_sorted(path, es);
    let files = file_tree_of(ListingModel::Dir(path, es)).files;
    let perm = choose|perm: Seq<int>| is_permutation(perm, es.len() as int)
        && forall|a: int| 0 <= a < files.len() ==> #[trigger] files[a] == file_tree_of(es[perm[a]]);
    assert forall|a: int, b: int| #![trigger files[a], files[b]] 0 <= a < b < files.len() implies {
        let na = name_in(d, files[a].path_from_docs);
        let nb = name_in(d, files[b].path_from_docs);
        !((exists|i: int| #[trigger] smaller_at(nb, na, i)) || proper_prefix(nb, na))
    } by {
        let pa = files[a].path_from_docs;
        let pb = files[b].path_from_docs;
        assert(files[a] == file_tree_of(es[perm[a]]));
        assert(files[b] == file_tree_of(es[perm[b]]));
        assert(pa == listing_path(es[perm[a]]));
        assert(pb == listing_path(es[perm[b]]));
        assert(is_entry_of(d, pa));
        assert(is_entry_of(d, pb));
        let na = name_in(d, pa);
        let nb = name_in(d, pb);
        assert(pa =~= d + seq!['/'] + na) by {
            assert(pa =~= pa.take(d.len() as int + 1) + pa.skip(d.len() as int + 1));
        }
        assert(pb =~= d + seq!['/'] + nb) by {
            assert(pb =~= pb.take(d.len() as int + 1) + pb.skip(d.len() as int + 1));
        }
        assert(!path_lt(pb, pa));
        law_path_lt_in_folder(d, nb, na);
        law_path_lt_names(nb, na);
    }
}

/// The order in which `sort_by_key` on the paths puts `entries`, as indices.
fn sorted_order(entries: &Vec<DirListing>) -> (r: Vec<usize>)
    ensures
        r@.len() == entries@.len(),
        forall|i: int| 0 <= i < r@.len() ==> #[trigger] r@[i] < entries@.len(),
        r@.map_values(|x: usize| x as int) == sorted_indices(listing_paths(listing_models(entries@)), entries@.len() as int),
{
    let ghost keys = listing_paths(listing_models(entries@));
    let mut comps: Vec<Vec<Vec<char>>> = Vec::new();
    let mut j: usize = 0;
    while j < entries.len()
        invariant
            j <= entries.len(),
            keys == listing_paths(listing_models(entries@)),
            comps@.len() == j,
            forall|k: int| 0 <= k < j ==> char_vecs(#[trigger] comps@[k]@) == components(keys[k]),
        decreases entries.len() - j,
    {
        let p = match &entries[j] {
            DirListing::File(p) => p,
            DirListing::Dir(p, _) => p,
        };
        assert(keys[j as int] == p@);
        let pv = chars_of(p.as_str());
        comps.push(components_of(&pv));
        j = j + 1;
    }
    let mut sorted: Vec<usize> = Vec::new();
    let mut j: usize = 0;
    while j < entries.len()
        invariant
            j <= entries.len(),
            comps@.len() == entries@.len(),
            keys == listing_paths(listing_models(entries@)),
            keys.len() == entries@.len(),
            forall|k: int| 0 <= k < entries@.len() ==> char_vecs(#[trigger] comps@[k]@) == components(keys[k]),
            sorted@.len() == j,
            forall|i: int| 0 <= i < sorted@.len() ==> #[trigger] sorted@[i] < j,
            sorted@.map_values(|x: usize| x as int) == sorted_indices(keys, j as int),
        decreases entries.len() - j,
    {
        let ghost s = sorted@.map_values(|x: usize| x as int);
        let mut pos = sorted.len();
        assert(s.take(pos as int) =~= s);
        assert(s.skip(pos as int) =~= Seq::<int>::empty());
        while pos > 0 && components_less(&comps[j], &comps[sorted[pos - 1]])
            invariant
                pos <= sorted@.len(),
                j < entries@.len(),
                comps@.len() == entries@.len(),
                forall|k: int| 0 <= k < entries@.len() ==> char_vecs(#[trigger] comps@[k]@) == components(keys[k]),
                forall|i: int| 0 <= i < sorted@.len() ==> #[trigger] sorted@[i] < j,
                s == sorted@.map_values(|x: usize| x as int),
                insert_index(s, j as int, keys) == insert_index(s.take(pos as int), j as int, keys) + s.skip(pos as int),
            decreases pos,
        {
            proof {
                assert(s[pos - 1] == sorted@[pos - 1] as int);
                lemma_insert_index_scan(s, j as int, keys, pos as int);
            }
            pos = pos - 1;
        }
        proof {
            if pos > 0 {
                assert(s.take(pos as int).drop_last() =~= s.take(pos as int - 1));
                assert(s.take(pos as int).last() == s[pos - 1]);
                assert(s[pos - 1] == sorted@[pos - 1] as int);
                assert(insert_index(s.take(pos as int), j as int, keys) == s.take(pos as int).push(j as int));
            } else {
                assert(s.take(0) =~= Seq::<int>::empty());
            }
        }
        sorted.insert(pos, j);
        assert(sorted@.map_values(|x: usize| x as int) =~= s.take(pos as int).push(j as int) + s.skip(pos as int));
        j = j + 1;
    }
    sorted
}

/// The tree that lists `entry`: see `file_tree_of`.  Every path in the
/// listing must have a file name.
pub fn recursive_file_tree_gen(entry: &DirListing) -> (r: FileTree)
    requires
        listing_named(entry.model()),
    ensures
        r.model() == file_tree_of(entry.model()),
    decreases entry,
{
    match entry {
        DirListing::File(path) => {
            let pv = chars_of(path.as_str());
            let name = file_name_of(&pv).unwrap();
            let r = FileTree { is_dir: false, path_from_docs: path.clone(), files: Vec::new(), name: string_of(&name) };
            assert(file_tree_models(r.files@) =~= Seq::<FileTreeModel>::empty());
            r
        },
        DirListing::Dir(path, entries) => {
            let pv = chars_of(path.as_str());
            let name = file_name_of(&pv).unwrap();
            let ghost es = listing_models(entries@);
            let ghost perm = sorted_indices(listing_paths(es), es.len() as int);
            let order = sorted_order(entries);
            assert(entry.model() == ListingModel::Dir(path@, es));
            assert forall|i: int| 0 <= i < es.len() implies listing_named(#[trigger] es[i]) by {
                let l = entry.model();
                assert(listing_named(l));
                assert(l->Dir_1 == es);
                assert(listing_named(l->Dir_1[i]));
            }
            let mut files: Vec<FileTree> = Vec::new();
            assert(file_tree_models(files@) =~= Seq::<FileTreeModel>::empty());
            let mut k: usize = 0;
            while k < order.len()
                invariant
                    k <= order.len(),
                    order@.len() == entries@.len(),
                    es == listing_models(entries@),
                    es.len() == entries@.len(),
                    perm == sorted_indices(listing_paths(es), es.len() as int),
                    perm == order@.map_values(|x: usize| x as int),
                    forall|i: int| 0 <= i < order@.len() ==> #[trigger] order@[i] < entries@.len(),
                    forall|i: int| 0 <= i < es.len() ==> listing_named(#[trigger] es[i]),
                    file_tree_models(files@) == tree_files(es, perm, k as int),
                    forall|i: int| 0 <= i < entries@.len() ==> #[trigger] es[i] == entries@[i].model(),
                    *entry == DirListing::Dir(*path, *entries),
                decreases order.len() - k,
            {
                let j = order[k];
                assert(perm[k as int] == j as int);
                proof {
                    vstd::std_specs::vec::axiom_vec_index_decreases(*entries, j as int);
                    assert(decreases_to!(*entry => entry->Dir_1));
                    assert(entry->Dir_1 == *entries);
                    assert(decreases_to!(*entry => entries@[j as int]));
                    assert(listing_named(es[j as int]));
                }
                let sub = recursive_file_tree_gen(&entries[j]);
                let ghost before = files@;
                files.push(sub);
                assert(file_tree_models(files@) =~= file_tree_models(before).push(sub.model()));
                k = k + 1;
            }
            let r = FileTree { is_dir: true, path_from_docs: path.clone(), files, name: string_of(&name) };
            r
        },
    }
}

/// Whether every path in the listing has a file name, as the file tree
/// needs.
pub fn is_listing_named(entry: &DirListing) -> (r: bool)
    ensures
        r == listing_named(entry.model()),
    decreases entry,
{
    match entry {
        DirListing::File(p) => {
            let pv = chars_of(p.as_str());
            file_name_of(&pv).is_some()
        },
        DirListing::Dir(p, es) => {
            let pv = chars_of(p.as_str());
            if file_name_of(&pv).is_none() {
                return false;
            }
            let ghost ms = listing_models(es@);
            assert(entry.model() == ListingModel::Dir(p@, ms));
            let mut i: usize = 0;
            while i < es.len()
                invariant
                    i <= es.len(),
                    ms == listing_models(es@),
                    ms.len() == es@.len(),
                    *entry == DirListing::Dir(*p, *es),
                    entry.model() == ListingModel::Dir(p@, ms),
                    forall|j: int| 0 <= j < i ==> listing_named(#[trigger] ms[j]),
                decreases es.len() - i,
            {
                proof {
                    vstd::std_specs::vec::axiom_vec_index_decreases(*es, i as int);
                    assert(decreases_to!(*entry => entry->Dir_1));
                    assert(decreases_to!(*entry => es@[i as int]));
                }
                assert(ms[i as int] == es@[i as int].model());
                if !is_listing_named(&es[i]) {
                    assert(!listing_named(ms[i as int]));
                    assert(!listing_named(entry.model())) by {
                        let l = entry.model();
                        assert(l->Dir_1 == ms);
                        assert(!listing_named(l->Dir_1[i as int]));
                    }
                    return false;
                }
                i = i + 1;
            }
            true
        },
    }
}

/// The tree that lists the documents folder: see `file_tree_of`.
pub fn build_file_tree(docs: &DirListing) -> (r: FileTree)
    requires
        listing_named(docs.model()),
    ensures
        r.model() == file_tree_of(docs.model()),
{
    recursive_file_tree_gen(docs)
}

} // verus!
