//! Local player profiles: their order, the text file they are saved in,
//! and the title-screen rules that pick or create the current player.

use crate::order::{lemma_text_lt_irreflexive, lemma_text_lt_total, lemma_text_lt_transitive, text_less, text_lt};
use crate::sorting::{listing_order, record_views, sort_records, Ranked};
use crate::text::{
    ascii_lower, eq_ignore_ascii_case, is_ascii_alnum, is_ascii_alphanumeric, is_white_space, push_char,
    same_text, trim, trimmed,
};
use vstd::prelude::*;
use vstd::relations::total_ordering;
use vstd::seq_lib::to_multiset_contains;

verus! {

/// A local player and the best score they reached.
pub struct PlayerProfile {
    pub name: String,
    pub high_score: u32,
}

/// The value of a [`PlayerProfile`].
pub struct ProfileView {
    pub name: Seq<char>,
    pub high_score: u32,
}

impl View for PlayerProfile {
    type V = ProfileView;

    open spec fn view(&self) -> ProfileView {
        ProfileView { name: self.name@, high_score: self.high_score }
    }
}

/// Profile `a` is listed no later than `b`: higher score first, then by
/// name.
pub open spec fn profile_leq(a: ProfileView, b: ProfileView) -> bool {
    ||| a.high_score > b.high_score
    ||| a.high_score == b.high_score && text_lt(a.name, b.name)
    ||| a.high_score == b.high_score && a.name == b.name
}

impl Ranked for PlayerProfile {
    open spec fn listed_before(a: ProfileView, b: ProfileView) -> bool {
        profile_leq(a, b)
    }

    fn precedes(&self, other: &Self) -> (r: bool) {
        if self.high_score != other.high_score {
            return self.high_score > other.high_score;
        }
        text_less(self.name.as_str(), other.name.as_str()) || same_text(
            self.name.as_str(),
            other.name.as_str(),
        )
    }

    fn copy_record(&self) -> (r: Self) {
        PlayerProfile { name: self.name.clone(), high_score: self.high_score }
    }
}

/// The profile order is a total order.
pub proof fn lemma_profile_order_total()
    ensures
        total_ordering(listing_order::<PlayerProfile>()),
{
    let r = listing_order::<PlayerProfile>();
    assert forall|x: ProfileView| #[trigger] r(x, x) by {}
    assert forall|x: ProfileView, y: ProfileView| #[trigger] r(x, y) && #[trigger] r(y, x) implies x
        == y by {
        lemma_text_lt_total(x.name, y.name);
        lemma_text_lt_irreflexive(x.name);
    }
    assert forall|x: ProfileView, y: ProfileView, z: ProfileView| #[trigger] r(x, y) && #[trigger] r(
        y,
        z,
    ) implies r(x, z) by {
        if x.high_score == y.high_score && y.high_score == z.high_score {
            if text_lt(x.name, y.name) && text_lt(y.name, z.name) {
                lemma_text_lt_transitive(x.name, y.name, z.name);
            }
        }
    }
    assert forall|x: ProfileView, y: ProfileView| #[trigger] r(x, y) || #[trigger] r(y, x) by {
        lemma_text_lt_total(x.name, y.name);
    }
}

/// Profiles in listing order: highest score first, then by name.
pub open spec fn ordered_profiles(ps: Seq<ProfileView>) -> Seq<ProfileView> {
    ps.sort_by(listing_order::<PlayerProfile>())
}

/// The profiles in listing order.
pub fn sort_profiles(profiles: &Vec<PlayerProfile>) -> (sorted: Vec<PlayerProfile>)
    ensures
        record_views(sorted@) == ordered_profiles(record_views(profiles@)),
{
    proof {
        lemma_profile_order_total();
    }
    sort_records(profiles)
}

/// The index of the first `c` in `s` (its length when there is none).
pub open spec fn char_index(s: Seq<char>, c: char) -> nat
    decreases s.len(),
{
    if s.len() == 0 {
        0
    } else if s[0] == c {
        0
    } else {
        1 + char_index(s.drop_first(), c)
    }
}

/// `i` is where `c` first occurs in `s` (or the length of `s`).
pub proof fn lemma_char_index_at(s: Seq<char>, c: char, i: int)
    requires
        0 <= i <= s.len(),
        forall|j: int| 0 <= j < i ==> s[j] != c,
        i == s.len() || s[i] == c,
    ensures
        char_index(s, c) == i,
    decreases i,
{
    if i > 0 {
        let t = s.drop_first();
        assert forall|j: int| 0 <= j < i - 1 implies t[j] != c by {
            assert(t[j] == s[j + 1]);
        }
        lemma_char_index_at(t, c, i - 1);
    }
}

/// The lines of a text: the pieces between its '\n' characters.
pub open spec fn split_lines(s: Seq<char>) -> Seq<Seq<char>>
    decreases s.len(),
{
    if s.contains('\n') {
        let i = char_index(s, '\n');
        proof {
            lemma_char_index_bound(s, '\n');
        }
        seq![s.take(i as int)] + split_lines(s.skip(i as int + 1))
    } else {
        seq![s]
    }
}

/// The first occurrence of a character that `s` holds is inside `s`.
pub proof fn lemma_char_index_bound(s: Seq<char>, c: char)
    requires
        s.contains(c),
    ensures
        char_index(s, c) < s.len(),
        s[char_index(s, c) as int] == c,
        forall|j: int| 0 <= j < char_index(s, c) ==> s[j] != c,
    decreases s.len(),
{
    if s[0] != c {
        let k = choose|k: int| 0 <= k < s.len() && s[k] == c;
        assert(s.drop_first()[k - 1] == c);
        lemma_char_index_bound(s.drop_first(), c);
        assert forall|j: int| 0 <= j < char_index(s, c) implies s[j] != c by {
            if j > 0 {
                assert(s[j] == s.drop_first()[j - 1]);
            }
        }
    }
}

/// The decimal value of a string of ASCII digits.
pub open spec fn digits_value(s: Seq<char>) -> nat
    decreases s.len(),
{
    if s.len() == 0 {
        0
    } else {
        digits_value(s.drop_last()) * 10 + ((s.last() as u32) - 48) as nat
    }
}

/// ASCII decimal digits.
pub open spec fn is_digit(c: char) -> bool {
    '0' <= c <= '9'
}

/// `s` without one leading '+'.
pub open spec fn unsigned_digits(s: Seq<char>) -> Seq<char> {
    if s.len() > 0 && s[0] == '+' {
        s.drop_first()
    } else {
        s
    }
}

/// Every character of `s` is an ASCII digit.
pub open spec fn all_digits(s: Seq<char>) -> bool {
    forall|i: int| 0 <= i < s.len() ==> is_digit(#[trigger] s[i])
}

/// The value `str::parse::<u32>` reads from `s`: an optional '+', then one
/// or more ASCII digits whose value fits in a `u32`.
pub open spec fn parse_u32(s: Seq<char>) -> Option<u32> {
    let d = unsigned_digits(s);
    if d.len() > 0 && all_digits(d) && digits_value(d) <= u32::MAX {
        Some(digits_value(d) as u32)
    } else {
        None
    }
}

proof fn lemma_digits_value_grows(s: Seq<char>, k: int)
    requires
        0 <= k <= s.len(),
        forall|i: int| 0 <= i < s.len() ==> is_digit(#[trigger] s[i]),
    ensures
        digits_value(s.take(k)) <= digits_value(s),
    decreases s.len() - k,
{
    if k < s.len() {
        let t = s.drop_last();
        assert forall|i: int| 0 <= i < t.len() implies is_digit(#[trigger] t[i]) by {
            assert(t[i] == s[i]);
        }
        lemma_digits_value_grows(t, k);
        assert(t.take(k) =~= s.take(k));
    } else {
        assert(s.take(k) =~= s);
    }
}

/// Reads a `u32` in decimal, as `str::parse::<u32>` does.
pub fn parse_u32_text(s: &str) -> (r: Option<u32>)
    ensures
        r == parse_u32(s@),
{
    let n: usize = s.unicode_len();
    let start: usize = if n > 0 && s.get_char(0) == '+' {
        1
    } else {
        0
    };
    let ghost d = unsigned_digits(s@);
    if start >= n {
        return None;
    }
    let mut value: u64 = 0;
    let mut i: usize = start;
    while i < n
        invariant
            n == s@.len(),
            start <= i <= n,
            start < n,
            d == s@.skip(start as int),
            d == unsigned_digits(s@),
            forall|j: int| 0 <= j < i - start ==> is_digit(#[trigger] d[j]),
            value == digits_value(d.take(i - start)),
            value <= u32::MAX,
        decreases n - i,
    {
        let c = s.get_char(i);
        if !('0' <= c && c <= '9') {
            proof {
                assert(d[i - start] == c);
                assert(d.len() == n - start);
                assert(!is_digit(d[i - start]));
                assert(!all_digits(d));
            }
            return None;
        }
        let digit: u64 = (c as u32 - 48) as u64;
        proof {
            assert(d.take(i - start + 1).drop_last() =~= d.take(i - start));
            assert(d[i - start] == c);
        }
        value = value * 10 + digit;
        proof {
            assert(value == digits_value(d.take(i - start + 1)));
        }
        if value > 4294967295 {
            proof {
                assert(d.len() == n - start);
                if all_digits(d) {
                    lemma_digits_value_grows(d, i - start + 1);
                    assert(digits_value(d) > u32::MAX);
                }
            }
            return None;
        }
        i = i + 1;
    }
    proof {
        assert(d.take(n - start) =~= d);
    }
    Some(value as u32)
}

/// The character of a decimal digit (< 10).
pub open spec fn digit_char(n: nat) -> char {
    ((n + 48) as u32) as char
}

/// `n` written in decimal, without leading zeros.
pub open spec fn decimal(n: nat) -> Seq<char>
    decreases n,
{
    if n < 10 {
        seq![digit_char(n)]
    } else {
        decimal(n / 10).push(digit_char(n % 10))
    }
}

/// Appends `n` in decimal to `out`.
pub fn push_decimal(out: &mut String, n: u32)
    ensures
        final(out)@ == old(out)@ + decimal(n as nat),
    decreases n,
{
    if n >= 10 {
        push_decimal(out, n / 10);
    }
    let d: u8 = (n % 10) as u8 + 48;
    push_char(out, d as char);
    proof {
        if n >= 10 {
            assert(old(out)@ + decimal((n / 10) as nat) + seq![digit_char((n % 10) as nat)] =~= old(
                out,
            )@ + decimal(n as nat));
        } else {
            assert(old(out)@.push(d as char) =~= old(out)@ + decimal(n as nat));
        }
    }
}

/// How a name is written to the profile file: line breaks and tabs become
/// spaces.
pub open spec fn saved_name(name: Seq<char>) -> Seq<char> {
    name.map_values(|c: char| if c == '\n' || c == '\t' { ' ' } else { c })
}

/// One line of the profile file: name, tab, high score.
pub open spec fn profile_line(p: ProfileView) -> Seq<char> {
    saved_name(p.name) + seq!['\t'] + decimal(p.high_score as nat)
}

/// The profile file: one line per profile, each ended by '\n'.
pub open spec fn profiles_text(ps: Seq<ProfileView>) -> Seq<char>
    decreases ps.len(),
{
    if ps.len() == 0 {
        Seq::empty()
    } else {
        profile_line(ps[0]) + seq!['\n'] + profiles_text(ps.drop_first())
    }
}

proof fn lemma_profiles_text_push(ps: Seq<ProfileView>, p: ProfileView)
    ensures
        profiles_text(ps.push(p)) == profiles_text(ps) + profile_line(p) + seq!['\n'],
    decreases ps.len(),
{
    if ps.len() == 0 {
        assert(ps.push(p).drop_first() =~= Seq::<ProfileView>::empty());
        assert(ps.push(p)[0] == p);
        assert(profiles_text(ps.push(p).drop_first()) =~= Seq::<char>::empty());
        assert(profiles_text(ps) =~= Seq::<char>::empty());
        assert(profiles_text(ps.push(p)) =~= profiles_text(ps) + profile_line(p) + seq!['\n']);
    } else {
        lemma_profiles_text_push(ps.drop_first(), p);
        assert(ps.push(p).drop_first() =~= ps.drop_first().push(p));
        assert(ps.push(p)[0] == ps[0]);
        let head = profile_line(ps[0]) + seq!['\n'];
        assert(profiles_text(ps.push(p)) == head + profiles_text(ps.drop_first().push(p)));
        assert(profiles_text(ps) == head + profiles_text(ps.drop_first()));
        let rest = profiles_text(ps.drop_first());
        let tail = profile_line(p) + seq!['\n'];
        assert(profiles_text(ps.drop_first().push(p)) == rest + tail);
        assert(head + (rest + tail) =~= (head + rest) + tail);
        assert(profiles_text(ps) + profile_line(p) + seq!['\n'] =~= (head + rest) + tail);
    }
}

/// The text of the profile file for `profiles`.
pub fn format_profiles(profiles: &Vec<PlayerProfile>) -> (text: String)
    ensures
        text@ == profiles_text(record_views(profiles@)),
{
    let mut text = String::new();
    let mut k: usize = 0;
    while k < profiles.len()
        invariant
            k <= profiles@.len(),
            text@ == profiles_text(record_views(profiles@).take(k as int)),
        decreases profiles@.len() - k,
    {
        let ghost before = text@;
        let name = profiles[k].name.as_str();
        let n: usize = name.unicode_len();
        let mut i: usize = 0;
        while i < n
            invariant
                n == name@.len(),
                i <= n,
                text@ == before + saved_name(name@.take(i as int)),
            decreases n - i,
        {
            let c = name.get_char(i);
            let shown = if c == '\n' || c == '\t' {
                ' '
            } else {
                c
            };
            push_char(&mut text, shown);
            proof {
                assert(saved_name(name@.take(i + 1)) =~= saved_name(name@.take(i as int)).push(shown));
            }
            i = i + 1;
        }
        push_char(&mut text, '\t');
        push_decimal(&mut text, profiles[k].high_score);
        push_char(&mut text, '\n');
        proof {
            assert(name@.take(n as int) =~= name@);
            let p = profiles@[k as int]@;
            assert(record_views(profiles@).take(k + 1) =~= record_views(profiles@).take(k as int).push(p));
            lemma_profiles_text_push(record_views(profiles@).take(k as int), p);
            assert(text@ =~= profiles_text(record_views(profiles@).take(k as int)) + profile_line(p) + seq!['\n']);
        }
        k = k + 1;
    }
    proof {
        assert(record_views(profiles@).take(profiles@.len() as int) =~= record_views(profiles@));
    }
    text
}

/// The profile that a line of the profile file describes: the trimmed
/// text before the first tab is the name (it must not be empty), the
/// trimmed text after it the high score.
pub open spec fn parse_line(line: Seq<char>) -> Option<ProfileView> {
    if line.contains('\t') {
        let t = char_index(line, '\t') as int;
        let name = trimmed(line.take(t));
        match parse_u32(trimmed(line.skip(t + 1))) {
            Some(score) => if name.len() > 0 {
                Some(ProfileView { name, high_score: score })
            } else {
                None
            },
            None => None,
        }
    } else {
        None
    }
}

/// The profiles described by the well-formed lines, in order.
pub open spec fn parse_lines(lines: Seq<Seq<char>>) -> Seq<ProfileView>
    decreases lines.len(),
{
    if lines.len() == 0 {
        Seq::empty()
    } else {
        match parse_line(lines[0]) {
            Some(p) => seq![p] + parse_lines(lines.drop_first()),
            None => parse_lines(lines.drop_first()),
        }
    }
}

/// The profiles read from the profile file, in listing order. Lines that
/// are not "name<TAB>score" are skipped.
pub open spec fn loaded_profiles(text: Seq<char>) -> Seq<ProfileView> {
    ordered_profiles(parse_lines(split_lines(text)))
}

/// The profile on one line of the profile file, if the line is well formed.
pub fn parse_profile_line(line: &str) -> (r: Option<PlayerProfile>)
    ensures
        match r {
            Some(p) => parse_line(line@) == Some(p@),
            None => parse_line(line@) is None,
        },
{
    let n: usize = line.unicode_len();
    let mut t: usize = 0;
    while t < n && line.get_char(t) != '\t'
        invariant
            n == line@.len(),
            t <= n,
            forall|j: int| 0 <= j < t ==> line@[j] != '\t',
        decreases n - t,
    {
        t = t + 1;
    }
    if t == n {
        proof {
            assert(!line@.contains('\t'));
        }
        return None;
    }
    proof {
        assert(line@.contains('\t')) by {
            assert(line@[t as int] == '\t');
        }
        lemma_char_index_at(line@, '\t', t as int);
    }
    let name = trim(line.substring_char(0, t));
    let score_text = trim(line.substring_char(t + 1, n));
    proof {
        assert(line@.subrange(0, t as int) =~= line@.take(t as int));
        assert(line@.subrange(t + 1, n as int) =~= line@.skip(t + 1));
    }
    if name.unicode_len() == 0 {
        return None;
    }
    match parse_u32_text(score_text) {
        Some(score) => Some(PlayerProfile { name: name.to_owned(), high_score: score }),
        None => None,
    }
}

/// The profiles on the lines of `text`, in file order.
pub fn read_profile_lines(text: &str) -> (profiles: Vec<PlayerProfile>)
    ensures
        record_views(profiles@) == parse_lines(split_lines(text@)),
{
    let n: usize = text.unicode_len();
    let mut out: Vec<PlayerProfile> = Vec::new();
    let mut start: usize = 0;
    let mut i: usize = 0;
    proof {
        assert(text@.skip(0) =~= text@);
        assert(record_views(out@) + parse_lines(split_lines(text@.skip(0))) =~= parse_lines(split_lines(text@)));
    }
    while i < n
        invariant
            n == text@.len(),
            start <= i <= n,
            forall|j: int| start <= j < i ==> text@[j] != '\n',
            record_views(out@) + parse_lines(split_lines(text@.skip(start as int))) == parse_lines(
                split_lines(text@),
            ),
        decreases n - i,
    {
        if text.get_char(i) == '\n' {
            let line = text.substring_char(start, i);
            let parsed = parse_profile_line(line);
            proof {
                let rest = text@.skip(start as int);
                assert forall|j: int| 0 <= j < i - start implies rest[j] != '\n' by {
                    assert(rest[j] == text@[j + start]);
                }
                assert(rest[i - start] == '\n');
                assert(rest.contains('\n'));
                lemma_char_index_at(rest, '\n', i - start);
                assert(rest.take(i - start) =~= line@);
                assert(rest.skip(i - start + 1) =~= text@.skip(i + 1));
                let tail = split_lines(text@.skip(i + 1));
                assert(split_lines(rest) == seq![line@] + tail);
                assert((seq![line@] + tail)[0] == line@);
                assert((seq![line@] + tail).drop_first() =~= tail);
            }
            let ghost before = record_views(out@);
            match parsed {
                Some(p) => {
                    let ghost pv = p@;
                    out.push(p);
                    proof {
                        assert(record_views(out@) =~= before.push(pv));
                        assert(before + seq![pv] + parse_lines(split_lines(text@.skip(i + 1))) =~= before.push(pv) + parse_lines(split_lines(text@.skip(i + 1))));
                    }
                },
                None => {},
            }
            start = i + 1;
        }
        i = i + 1;
    }
    let line = text.substring_char(start, n);
    let parsed = parse_profile_line(line);
    proof {
        let rest = text@.skip(start as int);
        assert(rest =~= line@);
        assert(!rest.contains('\n')) by {
            assert forall|j: int| 0 <= j < rest.len() implies rest[j] != '\n' by {
                assert(rest[j] == text@[j + start]);
            }
        }
        assert(split_lines(rest) == seq![line@]);
        assert(seq![line@].drop_first() =~= Seq::<Seq<char>>::empty());
        assert(parse_lines(Seq::<Seq<char>>::empty()) =~= Seq::<ProfileView>::empty());
    }
    let ghost before = record_views(out@);
    match parsed {
        Some(p) => {
            let ghost pv = p@;
            out.push(p);
            proof {
                assert(record_views(out@) =~= before.push(pv));
                assert(before + seq![pv] =~= before.push(pv));
            }
        },
        None => {
            proof {
                assert(before + Seq::<ProfileView>::empty() =~= before);
            }
        },
    }
    out
}

/// The profiles saved in `text`, in listing order (what loading the
/// profile file gives).
pub fn parse_profiles(text: &str) -> (profiles: Vec<PlayerProfile>)
    ensures
        record_views(profiles@) == loaded_profiles(text@),
{
    let read = read_profile_lines(text);
    sort_profiles(&read)
}

/// Characters accepted while a new player's name is typed.
pub open spec fn is_entry_char(c: char) -> bool {
    is_ascii_alnum(c) || c == ' ' || c == '-' || c == '_'
}

/// The longest name that can be typed.
pub const NAME_MAX_LEN: usize = 16;

/// The title screen's player selection: the profiles, the selected one,
/// and the name being typed for a new player.
pub struct ProfileBook {
    profiles: Vec<PlayerProfile>,
    current: usize,
    entering_name: bool,
    name_input: String,
    high_score: u32,
}

/// The value of a [`ProfileBook`].
pub struct BookView {
    pub profiles: Seq<ProfileView>,
    pub current: nat,
    pub entering_name: bool,
    pub name_input: Seq<char>,
    pub high_score: u32,
}

impl View for ProfileBook {
    type V = BookView;

    closed spec fn view(&self) -> BookView {
        BookView {
            profiles: record_views(self.profiles@),
            current: self.current as nat,
            entering_name: self.entering_name,
            name_input: self.name_input@,
            high_score: self.high_score,
        }
    }
}

/// A selection is consistent: the selected index is a profile's (0 when
/// there is none) and the typed name is at most 16 accepted characters.
pub open spec fn book_wf(v: BookView) -> bool {
    &&& v.current < v.profiles.len() || (v.profiles.len() == 0 && v.current == 0)
    &&& v.name_input.len() <= NAME_MAX_LEN
    &&& forall|i: int| 0 <= i < v.name_input.len() ==> is_entry_char(#[trigger] v.name_input[i])
}

/// `i` is the first profile whose name equals `name` ignoring ASCII case.
pub open spec fn is_first_named(ps: Seq<ProfileView>, name: Seq<char>, i: int) -> bool {
    &&& 0 <= i < ps.len()
    &&& ascii_lower(ps[i].name) == ascii_lower(name)
    &&& forall|j: int| 0 <= j < i ==> ascii_lower((#[trigger] ps[j]).name) != ascii_lower(name)
}

/// Some profile's name equals `name` ignoring ASCII case.
pub open spec fn has_named(ps: Seq<ProfileView>, name: Seq<char>) -> bool {
    exists|i: int| 0 <= i < ps.len() && ascii_lower((#[trigger] ps[i]).name) == ascii_lower(name)
}

/// The index of the first profile whose name equals `name` ignoring case.
pub open spec fn named_index(ps: Seq<ProfileView>, name: Seq<char>) -> int {
    choose|i: int| is_first_named(ps, name, i)
}

/// The selection once the typed name is confirmed: nothing happens for a
/// blank name; otherwise the profile of that name (ignoring case) is
/// selected, created with a high score of 0 if there is none (the profiles
/// are then put back in listing order), and name entry ends.
pub open spec fn after_confirm(v: BookView) -> BookView {
    let name = trimmed(v.name_input);
    if name.len() == 0 {
        v
    } else {
        let ps = if has_named(v.profiles, name) {
            v.profiles
        } else {
            ordered_profiles(v.profiles.push(ProfileView { name, high_score: 0 }))
        };
        let idx = named_index(ps, name);
        BookView {
            profiles: ps,
            current: idx as nat,
            entering_name: false,
            name_input: Seq::empty(),
            high_score: ps[idx].high_score,
        }
    }
}

fn find_named(profiles: &Vec<PlayerProfile>, name: &str) -> (r: Option<usize>)
    ensures
        match r {
            Some(i) => is_first_named(record_views(profiles@), name@, i as int),
            None => !has_named(record_views(profiles@), name@),
        },
{
    let mut i: usize = 0;
    while i < profiles.len()
        invariant
            i <= profiles@.len(),
            forall|j: int| 0 <= j < i ==> ascii_lower((#[trigger] record_views(profiles@)[j]).name)
                != ascii_lower(name@),
        decreases profiles@.len() - i,
    {
        if eq_ignore_ascii_case(profiles[i].name.as_str(), name) {
            return Some(i);
        }
        i = i + 1;
    }
    None
}

impl ProfileBook {
    /// The selection is consistent.
    pub open spec fn wf(&self) -> bool {
        book_wf(self@)
    }

    /// The title screen's selection for the saved profiles: the first one
    /// selected, and name entry open when there is none.
    pub fn new(profiles: Vec<PlayerProfile>) -> (book: Self)
        ensures
            book.wf(),
            book@.profiles == record_views(profiles@),
            book@.current == 0,
            book@.entering_name == (profiles@.len() == 0),
            book@.name_input.len() == 0,
            book@.high_score == if profiles@.len() > 0 {
                profiles@[0].high_score
            } else {
                0
            },
    {
        let high_score = if profiles.len() > 0 {
            profiles[0].high_score
        } else {
            0
        };
        let entering_name = profiles.len() == 0;
        ProfileBook { profiles, current: 0, entering_name, name_input: String::new(), high_score }
    }

    /// The profiles, in their current order.
    pub fn profiles(&self) -> (ps: &Vec<PlayerProfile>)
        ensures
            record_views(ps@) == self@.profiles,
    {
        &self.profiles
    }

    /// The index of the selected profile.
    pub fn current_index(&self) -> (i: usize)
        ensures
            i == self@.current,
    {
        self.current
    }

    /// Whether a new player's name is being typed.
    pub fn is_entering_name(&self) -> (b: bool)
        ensures
            b == self@.entering_name,
    {
        self.entering_name
    }

    /// The name typed so far.
    pub fn name_input(&self) -> (s: &str)
        ensures
            s@ == self@.name_input,
    {
        self.name_input.as_str()
    }

    /// The high score shown for the selected player.
    pub fn high_score(&self) -> (h: u32)
        ensures
            h == self@.high_score,
    {
        self.high_score
    }

    /// A typed character: accepted characters are appended while the name
    /// is shorter than 16.
    pub fn type_char(&mut self, c: char)
        requires
            old(self).wf(),
        ensures
            final(self).wf(),
            final(self)@ == if is_entry_char(c) && old(self)@.name_input.len() < NAME_MAX_LEN {
                (BookView { name_input: old(self)@.name_input.push(c), ..old(self)@ })
            } else {
                old(self)@
            },
    {
        let accepted = is_ascii_alphanumeric(c) || c == ' ' || c == '-' || c == '_';
        if accepted && self.name_input.as_str().unicode_len() < NAME_MAX_LEN {
            push_char(&mut self.name_input, c);
        }
    }

    /// Backspace: the last typed character is removed.
    pub fn erase_char(&mut self)
        requires
            old(self).wf(),
        ensures
            final(self).wf(),
            final(self)@ == if old(self)@.name_input.len() > 0 {
                (BookView { name_input: old(self)@.name_input.drop_last(), ..old(self)@ })
            } else {
                old(self)@
            },
    {
        let n: usize = self.name_input.as_str().unicode_len();
        if n > 0 {
            let shorter = self.name_input.as_str().substring_char(0, n - 1).to_owned();
            self.name_input = shorter;
        }
    }

    /// Starts typing a new player's name.
    pub fn begin_new_name(&mut self)
        requires
            old(self).wf(),
        ensures
            final(self).wf(),
            final(self)@ == (BookView { entering_name: true, name_input: Seq::empty(), ..old(self)@ }),
    {
        self.entering_name = true;
        self.name_input = String::new();
    }

    /// Confirms the typed name (see [`after_confirm`]); answers whether the
    /// profiles must be saved.
    pub fn confirm_name(&mut self) -> (saved: bool)
        requires
            old(self).wf(),
        ensures
            final(self).wf(),
            final(self)@ == after_confirm(old(self)@),
            saved == (trimmed(old(self)@.name_input).len() > 0),
    {
        let ghost v = self@;
        let name = trim(self.name_input.as_str()).to_owned();
        if name.as_str().unicode_len() == 0 {
            return false;
        }
        let index = match find_named(&self.profiles, name.as_str()) {
            Some(i) => {
                proof {
                    let ps = record_views(self.profiles@);
                    assert(has_named(ps, name@)) by {
                        assert(ascii_lower(ps[i as int].name) == ascii_lower(name@));
                    }
                    let c = choose|k: int| is_first_named(ps, name@, k);
                    assert(c == i as int);
                }
                i
            },
            None => {
                let ghost added = ProfileView { name: name@, high_score: 0 };
                let profile = PlayerProfile { name: name.clone(), high_score: 0 };
                let mut all = copy_profiles(&self.profiles);
                all.push(profile);
                proof {
                    assert(record_views(all@) =~= v.profiles.push(added));
                }
                let sorted = sort_profiles(&all);
                proof {
                    lemma_profile_order_total();
                    let ps = record_views(sorted@);
                    v.profiles.push(added).lemma_sort_by_ensures(listing_order::<PlayerProfile>());
                    assert(v.profiles.push(added)[v.profiles.len() as int] == added);
                    to_multiset_contains(v.profiles.push(added), added);
                    to_multiset_contains(ps, added);
                    assert(ps.contains(added));
                    let k = choose|k: int| 0 <= k < ps.len() && ps[k] == added;
                    assert(ascii_lower(ps[k].name) == ascii_lower(name@));
                }
                self.profiles = sorted;
                match find_named(&self.profiles, name.as_str()) {
                    Some(i) => {
                        proof {
                            let ps = record_views(self.profiles@);
                            let c = choose|k: int| is_first_named(ps, name@, k);
                            assert(c == i as int);
                        }
                        i
                    },
                    None => 0,
                }
            },
        };
        self.current = index;
        self.high_score = self.profiles[index].high_score;
        self.entering_name = false;
        self.name_input = String::new();
        true
    }

    /// Up on the title screen: the previous profile is selected (the last
    /// one after the first).
    pub fn select_previous(&mut self)
        requires
            old(self).wf(),
        ensures
            final(self).wf(),
            final(self)@ == if old(self)@.profiles.len() > 0 {
                let c = if old(self)@.current == 0 {
                    (old(self)@.profiles.len() - 1) as nat
                } else {
                    (old(self)@.current - 1) as nat
                };
                (BookView { current: c, high_score: old(self)@.profiles[c as int].high_score, ..old(self)@ })
            } else {
                old(self)@
            },
    {
        if self.profiles.len() > 0 {
            if self.current == 0 {
                self.current = self.profiles.len() - 1;
            } else {
                self.current = self.current - 1;
            }
            self.high_score = self.profiles[self.current].high_score;
        }
    }

    /// Down on the title screen: the next profile is selected (the first
    /// one after the last).
    pub fn select_next(&mut self)
        requires
            old(self).wf(),
        ensures
            final(self).wf(),
            final(self)@ == if old(self)@.profiles.len() > 0 {
                let c = ((old(self)@.current + 1) % old(self)@.profiles.len()) as nat;
                (BookView { current: c, high_score: old(self)@.profiles[c as int].high_score, ..old(self)@ })
            } else {
                old(self)@
            },
    {
        if self.profiles.len() > 0 {
            self.current = (self.current + 1) % self.profiles.len();
            self.high_score = self.profiles[self.current].high_score;
        }
    }

    /// Space or Enter on the title screen: a game can start once a profile
    /// exists; the selected player's high score is shown.
    pub fn start_game(&mut self) -> (started: bool)
        requires
            old(self).wf(),
        ensures
            final(self).wf(),
            started == (old(self)@.profiles.len() > 0),
            final(self)@ == if started {
                (BookView { high_score: old(self)@.profiles[old(self)@.current as int].high_score, ..old(self)@ })
            } else {
                old(self)@
            },
    {
        if self.profiles.len() > 0 {
            self.high_score = self.profiles[self.current].high_score;
            true
        } else {
            false
        }
    }

    /// A score reached in the current run: when it beats the selected
    /// player's high score it becomes the new high score; answers whether
    /// the profiles must be saved.
    pub fn record_score(&mut self, score: u32) -> (saved: bool)
        requires
            old(self).wf(),
        ensures
            final(self).wf(),
            saved == (old(self)@.profiles.len() > 0 && score > old(self)@.profiles[old(self)@.current as int].high_score),
            final(self)@ == if saved {
                let c = old(self)@.current as int;
                (BookView {
                    profiles: old(self)@.profiles.update(c, (ProfileView { high_score: score, ..old(self)@.profiles[c] })),
                    high_score: score,
                    ..old(self)@
                })
            } else {
                old(self)@
            },
    {
        if self.profiles.len() > 0 && score > self.profiles[self.current].high_score {
            let ghost before = self.profiles@;
            let mut profile = self.profiles[self.current].copy_record();
            profile.high_score = score;
            self.profiles.set(self.current, profile);
            self.high_score = score;
            proof {
                assert(record_views(self.profiles@) =~= record_views(before).update(
                    self.current as int,
                    profile@,
                ));
            }
            true
        } else {
            false
        }
    }
}

/// A copy of every profile, in order.
pub fn copy_profiles(profiles: &Vec<PlayerProfile>) -> (r: Vec<PlayerProfile>)
    ensures
        record_views(r@) == record_views(profiles@),
{
    let mut out: Vec<PlayerProfile> = Vec::new();
    let mut i: usize = 0;
    while i < profiles.len()
        invariant
            i <= profiles@.len(),
            record_views(out@) == record_views(profiles@.subrange(0, i as int)),
        decreases profiles@.len() - i,
    {
        let p = profiles[i].copy_record();
        let ghost before = out@;
        out.push(p);
        proof {
            assert(record_views(out@) =~= record_views(before).push(p@));
            assert(record_views(profiles@.subrange(0, i + 1)) =~= record_views(
                profiles@.subrange(0, i as int),
            ).push(profiles@[i as int]@));
        }
        i = i + 1;
    }
    proof {
        assert(profiles@.subrange(0, profiles@.len() as int) =~= profiles@);
    }
    out
}

} // verus!
