//! String case conversion: splitting an identifier into words and joining
//! them again in another style.
use vstd::prelude::*;
use rand::Rng;
use crate::alfred::{AlfredItem, item_is};
use crate::strings::{
    is_lower, is_upper, is_digit, is_alpha, is_alnum, lower_seq, ascii_lower, chars_of, char_is_alnum,
    char_is_upper, char_is_lower, char_is_alpha, char_is_digit, to_ascii_lower, std_push_char, views,
    is_ascii_char, ascii_upper, to_ascii_upper, spec_char_to_upper, spec_char_to_lower,
    spec_is_alphabetic, str_upper, str_lower, std_char_to_upper, std_char_to_lower,
    std_is_alphabetic, to_uppercase, to_lowercase, push_range, push_str, spec_join, join,
    concat, upper_seq,
};

verus! {

/// The target styles of a conversion.
#[derive(Copy, Clone, Debug, PartialEq, Eq, Structural, PartialOrd, Ord)]
pub enum SccFormat {
    Camel,
    Pascal,
    Snake,
    SnakeUpper,
    SnakeCap,
    Kebab,
    Dot,
    Title,
    SpongeBob,
    Upper,
    Lower,
}

// ---------------------------------------------------------------------------
// Word splitting
// ---------------------------------------------------------------------------

/// A scanning state: the words found so far and the word being read.
pub type ScanState = (Seq<Seq<char>>, Seq<char>);

/// A word break between the last character read `p` and the next one `c`:
/// lower to upper case, letter to digit, or digit to letter.
pub open spec fn is_boundary(p: char, c: char) -> bool {
    (is_lower(p) && is_upper(c)) || (is_alpha(p) && is_digit(c)) || (is_digit(p) && is_alpha(c))
}

/// The end of an acronym: an upper-case run of two or more letters followed by
/// a lower-case letter ("HTTPServer": the `S` starts the next word).
pub open spec fn is_acronym_end(cur: Seq<char>, c: char) -> bool {
    &&& cur.len() >= 2
    &&& is_upper(cur.last())
    &&& is_lower(c)
    &&& is_upper(cur[cur.len() - 2])
}

/// One step of the scan on the character `c`.
pub open spec fn scan_step(st: ScanState, c: char) -> ScanState {
    let words = st.0;
    let cur = st.1;
    if !is_alnum(c) {
        if cur.len() > 0 {
            (words.push(lower_seq(cur)), Seq::empty())
        } else {
            (words, Seq::empty())
        }
    } else if cur.len() == 0 {
        (words, seq![c])
    } else if is_acronym_end(cur, c) {
        (words.push(lower_seq(cur.drop_last())), seq![cur.last(), c])
    } else if is_boundary(cur.last(), c) {
        (words.push(lower_seq(cur)), seq![c])
    } else {
        (words, cur.push(c))
    }
}

/// The scan of `s` started in state `st`.
pub open spec fn scan_from(st: ScanState, s: Seq<char>) -> ScanState
    decreases s.len(),
{
    if s.len() == 0 {
        st
    } else {
        scan_step(scan_from(st, s.drop_last()), s.last())
    }
}

pub open spec fn scan_start() -> ScanState {
    (Seq::empty(), Seq::empty())
}

/// The words of a finished scan: the pending word, if any, is the last one.
pub open spec fn scan_finish(st: ScanState) -> Seq<Seq<char>> {
    if st.1.len() > 0 {
        st.0.push(lower_seq(st.1))
    } else {
        st.0
    }
}

/// The lower-case words of `s`, split at every character that is not an
/// ASCII letter or digit and at the case and digit boundaries.
pub open spec fn spec_normalize(s: Seq<char>) -> Seq<Seq<char>> {
    scan_finish(scan_from(scan_start(), s))
}

fn lower_string(cs: &[char]) -> (r: String)
    ensures
        r@ == lower_seq(cs@),
{
    let mut r = String::new();
    let mut i: usize = 0;
    while i < cs.len()
        invariant
            0 <= i <= cs.len(),
            r@ == lower_seq(cs@.take(i as int)),
        decreases cs.len() - i,
    {
        let c = to_ascii_lower(cs[i]);
        std_push_char(&mut r, c);
        assert(lower_seq(cs@.take(i + 1)) =~= lower_seq(cs@.take(i as int)).push(c));
        i = i + 1;
    }
    assert(cs@.take(cs.len() as int) =~= cs@);
    r
}

/// Splits `input` into lower-case words ("HTTPServer2" gives "http",
/// "server", "2").
pub fn normalize(input: &str) -> (words: Vec<String>)
    ensures
        views(words@) == spec_normalize(input@),
        forall|i: int| 0 <= i < words@.len() ==> word_ok(#[trigger] words@[i]@),
{
    let cs = chars_of(input);
    let mut words: Vec<String> = Vec::new();
    let mut current: Vec<char> = Vec::new();
    let mut i: usize = 0;
    while i < cs.len()
        invariant
            0 <= i <= cs.len(),
            cs@ == input@,
            (views(words@), current@) == scan_from(scan_start(), cs@.take(i as int)),
        decreases cs.len() - i,
    {
        let c = cs[i];
        let ghost before = (views(words@), current@);
        assert(cs@.take(i + 1).drop_last() =~= cs@.take(i as int));
        if !char_is_alnum(c) {
            if current.len() > 0 {
                let w = lower_string(current.as_slice());
                words.push(w);
                current = Vec::new();
                assert(views(words@) =~= before.0.push(lower_seq(before.1)));
            }
            assert(current@ =~= Seq::<char>::empty());
        } else if current.len() == 0 {
            current.push(c);
            assert(current@ =~= seq![c]);
        } else {
            let n = current.len();
            let p = current[n - 1];
            let acronym = char_is_upper(p) && char_is_lower(c) && n >= 2 && char_is_upper(
                current[n - 2],
            );
            let boundary = (char_is_lower(p) && char_is_upper(c)) || (char_is_alpha(p)
                && char_is_digit(c)) || (char_is_digit(p) && char_is_alpha(c));
            if acronym {
                let last = current.pop().unwrap();
                let w = lower_string(current.as_slice());
                words.push(w);
                current = Vec::new();
                current.push(last);
                current.push(c);
                assert(views(words@) =~= before.0.push(lower_seq(before.1.drop_last())));
                assert(current@ =~= seq![before.1.last(), c]);
            } else if boundary {
                let w = lower_string(current.as_slice());
                words.push(w);
                current = Vec::new();
                current.push(c);
                assert(views(words@) =~= before.0.push(lower_seq(before.1)));
                assert(current@ =~= seq![c]);
            } else {
                current.push(c);
            }
        }
        i = i + 1;
    }
    assert(cs@.take(cs.len() as int) =~= cs@);
    let ghost before = (views(words@), current@);
    if current.len() > 0 {
        let w = lower_string(current.as_slice());
        words.push(w);
        assert(views(words@) =~= before.0.push(lower_seq(before.1)));
    }
    proof {
        lemma_normalize_words_ok(input@);
        assert(views(words@) == spec_normalize(input@));
        assert forall|i: int| 0 <= i < words@.len() implies word_ok(#[trigger] words@[i]@) by {
            assert(views(words@)[i] == words@[i]@);
            assert(word_ok(spec_normalize(input@)[i]));
        }
    }
    words
}


// ---------------------------------------------------------------------------
// Styles
// ---------------------------------------------------------------------------

/// The first character in upper case: ASCII by the ASCII table, any other
/// character by `char::to_uppercase`.
pub open spec fn spec_upper_first(c: char) -> Seq<char> {
    if is_ascii_char(c) {
        seq![ascii_upper(c)]
    } else {
        spec_char_to_upper(c)
    }
}

/// `s` with its first character in upper case and the rest unchanged.
pub open spec fn spec_capitalize(s: Seq<char>) -> Seq<char> {
    if s.len() == 0 {
        Seq::empty()
    } else {
        spec_upper_first(s[0]) + s.skip(1)
    }
}

/// Upper-cases the first character of `s` ("hello" gives "Hello").
pub fn capitalize(s: &str) -> (r: String)
    ensures
        r@ == spec_capitalize(s@),
{
    let cs = chars_of(s);
    if cs.len() == 0 {
        return String::new();
    }
    let f = cs[0];
    let mut r = if (f as u32) < 128 {
        let mut r = String::new();
        std_push_char(&mut r, to_ascii_upper(f));
        r
    } else {
        std_char_to_upper(f)
    };
    push_range(&mut r, cs.as_slice(), 1, cs.len());
    assert(cs@.subrange(1, cs@.len() as int) =~= cs@.skip(1));
    r
}

pub open spec fn capitalized(ws: Seq<Seq<char>>) -> Seq<Seq<char>> {
    ws.map_values(|w: Seq<char>| spec_capitalize(w))
}

/// The first word as it is, every later word capitalized.
pub open spec fn camel_parts(ws: Seq<Seq<char>>) -> Seq<Seq<char>> {
    Seq::new(ws.len(), |i: int| if i == 0 { ws[i] } else { spec_capitalize(ws[i]) })
}

/// Whether `c` is alphabetic: for ASCII the letters `A`-`Z` and `a`-`z`,
/// otherwise as `char::is_alphabetic` says.
pub open spec fn is_letter(c: char) -> bool {
    if is_ascii_char(c) {
        is_alpha(c)
    } else {
        spec_is_alphabetic(c)
    }
}

/// One character of the mocking style: an alphabetic character is upper- or
/// lower-cased as the coin says (an ASCII letter by the ASCII table, any
/// other by `char::to_uppercase` or `char::to_lowercase`); any other
/// character stays.
pub open spec fn sponge_piece(c: char, up: bool) -> Seq<char> {
    if is_ascii_char(c) {
        if is_alpha(c) {
            seq![if up { ascii_upper(c) } else { ascii_lower(c) }]
        } else {
            seq![c]
        }
    } else if spec_is_alphabetic(c) {
        if up {
            spec_char_to_upper(c)
        } else {
            spec_char_to_lower(c)
        }
    } else {
        seq![c]
    }
}

/// The mocking style of `s` for the coin flips `coins` (one per character).
pub open spec fn spec_spongebob(s: Seq<char>, coins: Seq<bool>) -> Seq<char> {
    Seq::new(s.len(), |i: int| sponge_piece(s[i], coins[i])).flatten()
}

/// What converting the words `ws` of `original` gives in `mode`, for every mode
/// but the random one.
pub open spec fn spec_convert(ws: Seq<Seq<char>>, mode: SccFormat, original: Seq<char>) -> Seq<char> {
    match mode {
        SccFormat::Camel => camel_parts(ws).flatten(),
        SccFormat::Pascal => capitalized(ws).flatten(),
        SccFormat::Snake => spec_join(ws, seq!['_']),
        SccFormat::SnakeUpper => str_upper(spec_join(ws, seq!['_'])),
        SccFormat::SnakeCap => spec_join(capitalized(ws), seq!['_']),
        SccFormat::Kebab => spec_join(ws, seq!['-']),
        SccFormat::Dot => spec_join(ws, seq!['.']),
        SccFormat::Title => spec_join(capitalized(ws), seq![' ']),
        SccFormat::SpongeBob => Seq::empty(),
        SccFormat::Upper => str_upper(original),
        SccFormat::Lower => str_lower(original),
    }
}

/// Whether `out` is a possible result of converting the words `ws` of
/// `original` to `mode`: the random style may flip each letter either way.
pub open spec fn converts_to(
    ws: Seq<Seq<char>>,
    mode: SccFormat,
    original: Seq<char>,
    out: Seq<char>,
) -> bool {
    if mode == SccFormat::SpongeBob {
        exists|coins: Seq<bool>|
            coins.len() == original.len() && out == #[trigger] spec_spongebob(original, coins)
    } else {
        out == spec_convert(ws, mode, original)
    }
}

/// The mocking style of `original`, upper-casing the alphabetic characters
/// whose coin is `true` and lower-casing the others.
pub fn spongebob_with(original: &str, coins: &[bool]) -> (r: String)
    requires
        coins@.len() == original@.len(),
    ensures
        r@ == spec_spongebob(original@, coins@),
{
    let cs = chars_of(original);
    let mut r = String::new();
    let mut i: usize = 0;
    while i < cs.len()
        invariant
            0 <= i <= cs.len(),
            cs@ == original@,
            coins@.len() == cs@.len(),
            r@ == Seq::new(i as nat, |j: int| sponge_piece(cs@[j], coins@[j])).flatten(),
        decreases cs.len() - i,
    {
        let c = cs[i];
        let ghost before = Seq::new(i as nat, |j: int| sponge_piece(cs@[j], coins@[j]));
        if (c as u32) < 128 {
            if char_is_alpha(c) {
                let d = if coins[i] {
                    to_ascii_upper(c)
                } else {
                    to_ascii_lower(c)
                };
                std_push_char(&mut r, d);
            } else {
                std_push_char(&mut r, c);
            }
        } else if std_is_alphabetic(c) {
            let piece = if coins[i] {
                std_char_to_upper(c)
            } else {
                std_char_to_lower(c)
            };
            push_str(&mut r, piece.as_str());
        } else {
            std_push_char(&mut r, c);
        }
        proof {
            let after = Seq::new((i + 1) as nat, |j: int| sponge_piece(cs@[j], coins@[j]));
            assert(after =~= before.push(sponge_piece(c, coins@[i as int])));
            before.lemma_flatten_push(sponge_piece(c, coins@[i as int]));
        }
        i = i + 1;
    }
    r
}

#[verifier::external_type_specification]
#[verifier::external_body]
pub struct ExThreadRng(rand::rngs::ThreadRng);

/// Calls `rand::thread_rng`; nothing is promised of the generator.
#[verifier::external_body]
fn thread_rng() -> rand::rngs::ThreadRng {
    rand::thread_rng()
}

/// Calls `Rng::gen_ratio`: `true` with chance `numerator / denominator`.
/// Its source makes `0 / d` always `false` and `d / d` always `true`; what
/// any other draw gives rests on chance and is not stated.
#[verifier::external_body]
fn gen_ratio(rng: &mut rand::rngs::ThreadRng, numerator: u32, denominator: u32) -> (r: bool)
    requires
        0 < denominator,
        numerator <= denominator,
    ensures
        numerator == 0 ==> !r,
        numerator == denominator ==> r,
{
    rng.gen_ratio(numerator, denominator)
}

/// The mocking style of `original` ("mOcKiNg sPoNgEbOb"): every alphabetic
/// character is upper- or lower-cased by a fair coin, the rest stays.
pub fn to_spongebob(original: &str) -> (r: String)
    ensures
        exists|coins: Seq<bool>|
            coins.len() == original@.len() && r@ == #[trigger] spec_spongebob(original@, coins),
{
    let mut rng = thread_rng();
    let cs = chars_of(original);
    let mut coins: Vec<bool> = Vec::new();
    let mut i: usize = 0;
    while i < cs.len()
        invariant
            0 <= i <= cs.len(),
            coins@.len() == i,
        decreases cs.len() - i,
    {
        if std_is_alphabetic(cs[i]) {
            coins.push(gen_ratio(&mut rng, 1, 2));
        } else {
            coins.push(false);
        }
        i = i + 1;
    }
    let r = spongebob_with(original, coins.as_slice());
    assert(coins@.len() == original@.len() && r@ == spec_spongebob(original@, coins@));
    r
}

fn capitalize_all(words: &[String]) -> (r: Vec<String>)
    ensures
        views(r@) == capitalized(views(words@)),
{
    let mut r: Vec<String> = Vec::new();
    let mut i: usize = 0;
    while i < words.len()
        invariant
            0 <= i <= words.len(),
            views(r@) == capitalized(views(words@.take(i as int))),
        decreases words.len() - i,
    {
        let ghost old_r = r@;
        let w = capitalize(words[i].as_str());
        r.push(w);
        assert(r@ == old_r.push(w));
        assert(views(words@.take(i + 1)) =~= views(words@.take(i as int)).push(words@[i as int]@));
        assert(views(r@) =~= views(old_r).push(w@));
        assert(views(r@) =~= capitalized(views(words@.take(i + 1))));
        i = i + 1;
    }
    assert(words@.take(words.len() as int) =~= words@);
    r
}

fn camel_words(words: &[String]) -> (r: Vec<String>)
    ensures
        views(r@) == camel_parts(views(words@)),
{
    let mut r: Vec<String> = Vec::new();
    let mut i: usize = 0;
    while i < words.len()
        invariant
            0 <= i <= words.len(),
            views(r@) =~= camel_parts(views(words@)).take(i as int),
        decreases words.len() - i,
    {
        let ghost old_r = r@;
        let w = if i == 0 {
            words[i].clone()
        } else {
            capitalize(words[i].as_str())
        };
        r.push(w);
        assert(r@ == old_r.push(w));
        assert(views(r@) =~= views(old_r).push(w@));
        assert(views(r@) =~= camel_parts(views(words@)).take(i + 1));
        i = i + 1;
    }
    assert(camel_parts(views(words@)).take(words.len() as int) =~= camel_parts(views(words@)));
    r
}

/// Writes the words `words` of `original` in the style `mode` ("hello",
/// "world" give "hello_world" in snake case). The whole-string styles and
/// the mocking style work on `original` itself.
pub fn convert(words: &[String], mode: SccFormat, original: &str) -> (r: String)
    ensures
        converts_to(views(words@), mode, original@, r@),
{
    proof {
        reveal_strlit("_");
        reveal_strlit("-");
        reveal_strlit(".");
        reveal_strlit(" ");
        assert("_"@ =~= seq!['_']);
        assert("-"@ =~= seq!['-']);
        assert("."@ =~= seq!['.']);
        assert(" "@ =~= seq![' ']);
    }
    let r = match mode {
        SccFormat::Camel => concat(camel_words(words).as_slice()),
        SccFormat::Pascal => concat(capitalize_all(words).as_slice()),
        SccFormat::Snake => join(words, "_"),
        SccFormat::SnakeUpper => {
            let snake = join(words, "_");
            to_uppercase(snake.as_str())
        },
        SccFormat::SnakeCap => join(capitalize_all(words).as_slice(), "_"),
        SccFormat::Kebab => join(words, "-"),
        SccFormat::Dot => join(words, "."),
        SccFormat::Title => join(capitalize_all(words).as_slice(), " "),
        SccFormat::SpongeBob => to_spongebob(original),
        SccFormat::Upper => to_uppercase(original),
        SccFormat::Lower => to_lowercase(original),
    };
    r
}

// ---------------------------------------------------------------------------
// What the command does
// ---------------------------------------------------------------------------

/// The names of the styles, one per line, as the list option prints them.
pub open spec fn format_list_text() -> Seq<char> {
    "camel\npascal\nsnake\nsnake_upper\nsnake_cap\nkebab\ndot\ntitle\nspongebob\nupper\nlower"@
}

/// The names of the styles, one per line.
pub fn format_list() -> (r: String)
    ensures
        r@ == format_list_text(),
{
    crate::strings::copy_str(
        "camel\npascal\nsnake\nsnake_upper\nsnake_cap\nkebab\ndot\ntitle\nspongebob\nupper\nlower",
    )
}

/// The styles offered as Alfred items, in order, with their labels.
pub open spec fn alfred_style(k: int) -> (SccFormat, Seq<char>) {
    if k == 0 {
        (SccFormat::Camel, "camelCase | 小驼峰"@)
    } else if k == 1 {
        (SccFormat::Pascal, "PascalCase | 大驼峰"@)
    } else if k == 2 {
        (SccFormat::Snake, "snake_case | 小蛇形"@)
    } else if k == 3 {
        (SccFormat::SnakeUpper, "SNAKE_CASE | 大蛇形"@)
    } else if k == 4 {
        (SccFormat::SnakeCap, "Snake_Case | 首字母大写蛇形"@)
    } else if k == 5 {
        (SccFormat::Kebab, "kebab-case | 短横线"@)
    } else if k == 6 {
        (SccFormat::Dot, "dot.case | 点分隔"@)
    } else if k == 7 {
        (SccFormat::Title, "Title Case | 标题"@)
    } else if k == 8 {
        (SccFormat::Upper, "UPPER | 全大写"@)
    } else if k == 9 {
        (SccFormat::Lower, "lower | 全小写"@)
    } else {
        (SccFormat::SpongeBob, "mOcKiNg | 嘲讽模式"@)
    }
}

fn alfred_style_at(k: usize) -> (r: (SccFormat, &'static str))
    requires
        k < 11,
    ensures
        r.0 == alfred_style(k as int).0,
        r.1@ == alfred_style(k as int).1,
{
    if k == 0 {
        (SccFormat::Camel, "camelCase | 小驼峰")
    } else if k == 1 {
        (SccFormat::Pascal, "PascalCase | 大驼峰")
    } else if k == 2 {
        (SccFormat::Snake, "snake_case | 小蛇形")
    } else if k == 3 {
        (SccFormat::SnakeUpper, "SNAKE_CASE | 大蛇形")
    } else if k == 4 {
        (SccFormat::SnakeCap, "Snake_Case | 首字母大写蛇形")
    } else if k == 5 {
        (SccFormat::Kebab, "kebab-case | 短横线")
    } else if k == 6 {
        (SccFormat::Dot, "dot.case | 点分隔")
    } else if k == 7 {
        (SccFormat::Title, "Title Case | 标题")
    } else if k == 8 {
        (SccFormat::Upper, "UPPER | 全大写")
    } else if k == 9 {
        (SccFormat::Lower, "lower | 全小写")
    } else {
        (SccFormat::SpongeBob, "mOcKiNg | 嘲讽模式")
    }
}

/// The Alfred items of `input`: one per style, titled and copied as the
/// conversion, labelled with the style.
pub open spec fn scc_items_are(items: Seq<AlfredItem>, input: Seq<char>) -> bool {
    &&& items.len() == 11
    &&& forall|k: int|
        0 <= k < 11 ==> {
            let v = (#[trigger] items[k]).arg@;
            &&& item_is(items[k], "scc"@, v, alfred_style(k).1, v)
            &&& converts_to(spec_normalize(input), alfred_style(k).0, input, v)
        }
}

/// One item per style for `input`.
pub fn scc_alfred_items(input: &str) -> (items: Vec<AlfredItem>)
    ensures
        scc_items_are(items@, input@),
{
    let words = normalize(input);
    let mut items: Vec<AlfredItem> = Vec::new();
    let mut k: usize = 0;
    while k < 11
        invariant
            0 <= k <= 11,
            views(words@) == spec_normalize(input@),
            items@.len() == k,
            forall|j: int|
                0 <= j < k ==> {
                    let v = (#[trigger] items@[j]).arg@;
                    &&& item_is(items@[j], "scc"@, v, alfred_style(j).1, v)
                    &&& converts_to(spec_normalize(input@), alfred_style(j).0, input@, v)
                },
        decreases 11 - k,
    {
        let (fmt, label) = alfred_style_at(k);
        let val = convert(words.as_slice(), fmt, input);
        items.push(AlfredItem::new("scc", val.as_str(), label, val.as_str()));
        k = k + 1;
    }
    items
}

/// What the case converter does with its arguments.
pub enum SccAction {
    /// Print the names of the styles.
    PrintList,
    /// Nothing to convert.
    Nothing,
    /// Print the conversion.
    Print(String),
    /// A style is needed outside Alfred mode.
    FormatRequired,
    /// Print these Alfred items.
    Alfred(Vec<AlfredItem>),
}

/// The arguments of the case converter.
pub struct SccArgs {
    /// The words of the input, if given on the command line.
    pub input: Option<Vec<String>>,
    /// The target style.
    pub format: Option<SccFormat>,
    /// Answer with Alfred items.
    pub alfred: bool,
    /// List the styles.
    pub list: bool,
}

/// What the case converter does: list the styles, or convert `input` to the
/// chosen style, or (in Alfred mode, with no style chosen) offer every style.
/// Alfred mode is asked for, or the output is no terminal.
pub fn scc_plan(args: &SccArgs, input: &str, stdout_is_terminal: bool) -> (r: SccAction)
    ensures
        ({
            let alfred_env = args.alfred || !stdout_is_terminal;
            &&& args.list ==> r is PrintList
            &&& !args.list && input@.len() == 0 ==> r is Nothing
            &&& !args.list && input@.len() > 0 && alfred_env && args.format is None ==> (
            r matches SccAction::Alfred(items) && scc_items_are(items@, input@))
            &&& !args.list && input@.len() > 0 && args.format is Some ==> (r matches SccAction::Print(
                out,
            ) && converts_to(spec_normalize(input@), args.format->0, input@, out@))
            &&& !args.list && input@.len() > 0 && !alfred_env && args.format is None
                ==> r is FormatRequired
        }),
{
    if args.list {
        return SccAction::PrintList;
    }
    if input.is_empty() {
        return SccAction::Nothing;
    }
    let is_alfred = crate::alfred::is_alfred_env(args.alfred, stdout_is_terminal)
        && args.format.is_none();
    if !is_alfred {
        match args.format {
            Some(fmt) => {
                let words = normalize(input);
                SccAction::Print(convert(words.as_slice(), fmt, input))
            },
            None => SccAction::FormatRequired,
        }
    } else {
        SccAction::Alfred(scc_alfred_items(input))
    }
}

// ---------------------------------------------------------------------------
// What the word splitting guarantees
// ---------------------------------------------------------------------------

/// A word as `normalize` produces it: not empty, and either all lower-case
/// ASCII letters or all ASCII digits.
pub open spec fn word_ok(w: Seq<char>) -> bool {
    &&& w.len() > 0
    &&& (forall|j: int| 0 <= j < w.len() ==> is_lower(#[trigger] w[j])) || (forall|j: int|
        0 <= j < w.len() ==> is_digit(#[trigger] w[j]))
}

pub open spec fn all_alpha(w: Seq<char>) -> bool {
    forall|j: int| 0 <= j < w.len() ==> is_alpha(#[trigger] w[j])
}

pub open spec fn all_digit(w: Seq<char>) -> bool {
    forall|j: int| 0 <= j < w.len() ==> is_digit(#[trigger] w[j])
}

spec fn scan_ok(st: ScanState) -> bool {
    &&& forall|i: int| 0 <= i < st.0.len() ==> word_ok(#[trigger] st.0[i])
    &&& all_alpha(st.1) || all_digit(st.1)
}

proof fn lemma_lower_word_ok(cur: Seq<char>)
    requires
        cur.len() > 0,
        all_alpha(cur) || all_digit(cur),
    ensures
        word_ok(lower_seq(cur)),
{
    if all_alpha(cur) {
        assert forall|j: int| 0 <= j < cur.len() implies is_lower(#[trigger] lower_seq(cur)[j]) by {
            assert(is_alpha(cur[j]));
        }
    } else {
        assert forall|j: int| 0 <= j < cur.len() implies is_digit(#[trigger] lower_seq(cur)[j]) by {
            assert(is_digit(cur[j]));
        }
    }
}

proof fn lemma_scan_ok(s: Seq<char>)
    ensures
        scan_ok(scan_from(scan_start(), s)),
    decreases s.len(),
{
    if s.len() > 0 {
        lemma_scan_ok(s.drop_last());
        let st = scan_from(scan_start(), s.drop_last());
        let c = s.last();
        let words = st.0;
        let cur = st.1;
        let next = scan_step(st, c);
        if !is_alnum(c) {
            if cur.len() > 0 {
                lemma_lower_word_ok(cur);
            }
        } else if cur.len() == 0 {
        } else if is_acronym_end(cur, c) {
            assert(!all_digit(cur)) by {
                assert(is_upper(cur[cur.len() - 1]));
            }
            assert(all_alpha(cur.drop_last()));
            lemma_lower_word_ok(cur.drop_last());
            assert(all_alpha(next.1));
        } else if is_boundary(cur.last(), c) {
            lemma_lower_word_ok(cur);
        } else {
            assert(cur.last() == cur[cur.len() - 1]);
            if all_alpha(cur) {
                assert(is_alpha(cur[cur.len() - 1]));
                assert(all_alpha(next.1));
            } else {
                assert(is_digit(cur[cur.len() - 1]));
                assert(all_digit(next.1));
            }
        }
    }
}

/// Every word that `normalize` returns is non-empty and is made of lower-case
/// ASCII letters only or of ASCII digits only.
pub proof fn lemma_normalize_words_ok(s: Seq<char>)
    ensures
        forall|i: int|
            0 <= i < spec_normalize(s).len() ==> word_ok(#[trigger] spec_normalize(s)[i]),
{
    lemma_scan_ok(s);
    let st = scan_from(scan_start(), s);
    if st.1.len() > 0 {
        lemma_lower_word_ok(st.1);
    }
}

spec fn alnum_pred() -> spec_fn(char) -> bool {
    |c: char| is_alnum(c)
}

proof fn lemma_scan_keeps_letters(s: Seq<char>)
    ensures
        scan_from(scan_start(), s).0.flatten() + lower_seq(scan_from(scan_start(), s).1)
            =~= lower_seq(s.filter(alnum_pred())),
    decreases s.len(),
{
    reveal(Seq::filter);
    if s.len() > 0 {
        lemma_scan_keeps_letters(s.drop_last());
        let st = scan_from(scan_start(), s.drop_last());
        let c = s.last();
        let words = st.0;
        let cur = st.1;
        let next = scan_step(st, c);
        let before = lower_seq(s.drop_last().filter(alnum_pred()));
        assert(words.flatten() + lower_seq(cur) =~= before);
        if !is_alnum(c) {
            assert(lower_seq(s.filter(alnum_pred())) == before);
            if cur.len() > 0 {
                words.lemma_flatten_push(lower_seq(cur));
            }
        } else {
            assert(lower_seq(s.filter(alnum_pred())) =~= before.push(ascii_lower(c)));
            if cur.len() == 0 {
            } else if is_acronym_end(cur, c) {
                words.lemma_flatten_push(lower_seq(cur.drop_last()));
                assert(lower_seq(cur) =~= lower_seq(cur.drop_last()).push(ascii_lower(cur.last())));
            } else if is_boundary(cur.last(), c) {
                words.lemma_flatten_push(lower_seq(cur));
            } else {
            }
        }
    }
}

/// Splitting loses and adds no letter or digit: the words, put back
/// together, are the input's ASCII letters and digits in lower case.
pub proof fn lemma_normalize_keeps_letters(s: Seq<char>)
    ensures
        spec_normalize(s).flatten() =~= lower_seq(s.filter(|c: char| is_alnum(c))),
{
    lemma_scan_keeps_letters(s);
    assert(alnum_pred() == (|c: char| is_alnum(c)));
    let st = scan_from(scan_start(), s);
    if st.1.len() > 0 {
        st.0.lemma_flatten_push(lower_seq(st.1));
    } else {
        assert(lower_seq(st.1) =~= Seq::<char>::empty());
    }
}


// ---------------------------------------------------------------------------
// Converting to a separated style and splitting again gives the words back
// ---------------------------------------------------------------------------

pub open spec fn lower_all(ws: Seq<Seq<char>>) -> Seq<Seq<char>> {
    ws.map_values(|w: Seq<char>| lower_seq(w))
}

pub open spec fn all_upper(w: Seq<char>) -> bool {
    forall|j: int| 0 <= j < w.len() ==> is_upper(#[trigger] w[j])
}

/// A word that the scan reads in one piece: digits only, letters of which
/// only the first may be upper case, or upper-case letters only.
pub open spec fn one_piece(w: Seq<char>) -> bool {
    &&& w.len() > 0
    &&& all_digit(w) || all_upper(w) || (all_alpha(w) && forall|j: int|
        1 <= j < w.len() ==> is_lower(#[trigger] w[j]))
}

proof fn lemma_scan_concat(st: ScanState, a: Seq<char>, b: Seq<char>)
    ensures
        scan_from(st, a + b) == scan_from(scan_from(st, a), b),
    decreases b.len(),
{
    if b.len() == 0 {
        assert(a + b =~= a);
    } else {
        assert((a + b).drop_last() =~= a + b.drop_last());
        assert((a + b).last() == b.last());
        lemma_scan_concat(st, a, b.drop_last());
    }
}

/// The words found before a scan starts only stand in front of the words it
/// finds: the scan's decisions rest on the pending word alone.
proof fn lemma_scan_prefix(w: Seq<Seq<char>>, cur: Seq<char>, s: Seq<char>)
    ensures
        scan_from((w, cur), s) == (
            w + scan_from((Seq::empty(), cur), s).0,
            scan_from((Seq::empty(), cur), s).1,
        ),
    decreases s.len(),
{
    if s.len() == 0 {
        assert(w + Seq::<Seq<char>>::empty() =~= w);
    } else {
        lemma_scan_prefix(w, cur, s.drop_last());
        let inner = scan_from((Seq::empty(), cur), s.drop_last());
        let c = s.last();
        let x = inner.0;
        let p = inner.1;
        assert((w + x).push(lower_seq(p)) =~= w + x.push(lower_seq(p)));
        assert((w + x).push(lower_seq(p.drop_last())) =~= w + x.push(lower_seq(p.drop_last())));
    }
}

/// A character that is no ASCII letter or digit ends every word: splitting
/// `a`, such a separator and `b` gives the words of `a` followed by the
/// words of `b`.
pub proof fn lemma_normalize_separator(a: Seq<char>, sep: char, b: Seq<char>)
    requires
        !is_alnum(sep),
    ensures
        spec_normalize(a + seq![sep] + b) == spec_normalize(a) + spec_normalize(b),
{
    let st = scan_from(scan_start(), a);
    lemma_scan_concat(scan_start(), a + seq![sep], b);
    lemma_scan_concat(scan_start(), a, seq![sep]);
    assert(seq![sep].drop_last() =~= Seq::<char>::empty());
    assert(scan_from(st, seq![sep].drop_last()) == st);
    let after = scan_from(st, seq![sep]);
    assert(after == scan_step(st, sep));
    assert(after == (spec_normalize(a), Seq::<char>::empty()));
    lemma_scan_prefix(spec_normalize(a), Seq::empty(), b);
    let rest = scan_from(scan_start(), b);
    let all = scan_from(after, b);
    assert(all == (spec_normalize(a) + rest.0, rest.1));
    if rest.1.len() > 0 {
        assert((spec_normalize(a) + rest.0).push(lower_seq(rest.1)) =~= spec_normalize(a) + rest.0.push(
            lower_seq(rest.1),
        ));
    }
}

proof fn lemma_scan_word(words: Seq<Seq<char>>, w: Seq<char>)
    requires
        one_piece(w),
    ensures
        scan_from((words, Seq::empty()), w) == (words, w),
    decreases w.len(),
{
    let st: ScanState = (words, Seq::empty());
    if w.len() == 1 {
        assert(w.drop_last() =~= Seq::<char>::empty());
        assert(is_alnum(w[0]));
        assert(seq![w[0]] =~= w);
        assert(scan_from(st, w.drop_last()) == st);
        assert(scan_from(st, w) == scan_step(st, w.last()));
    } else {
        let d = w.drop_last();
        assert(one_piece(d)) by {
            if all_digit(w) {
                assert(all_digit(d));
            } else if all_upper(w) {
                assert(all_upper(d));
            } else {
                assert(all_alpha(d));
                assert forall|j: int| 1 <= j < d.len() implies is_lower(#[trigger] d[j]) by {
                    assert(d[j] == w[j]);
                }
            }
        }
        lemma_scan_word(words, d);
        let c = w.last();
        let p = d.last();
        assert(c == w[w.len() - 1]);
        assert(p == w[w.len() - 2]);
        assert(is_alnum(c));
        assert(!is_acronym_end(d, c)) by {
            if d.len() >= 2 && is_lower(c) {
                assert(!all_digit(w));
                assert(!all_upper(w));
                assert(is_lower(w[w.len() - 2]));
            }
        }
        assert(!is_boundary(p, c)) by {
            if all_digit(w) {
                assert(is_digit(p) && is_digit(c));
            } else if all_upper(w) {
                assert(is_upper(p) && is_upper(c));
            } else {
                assert(is_alpha(p) && is_lower(c));
            }
        }
        assert(d.push(c) =~= w);
    }
}

proof fn lemma_scan_join(ws: Seq<Seq<char>>, sep: char)
    requires
        ws.len() > 0,
        forall|i: int| 0 <= i < ws.len() ==> one_piece(#[trigger] ws[i]),
        !is_alnum(sep),
    ensures
        scan_from(scan_start(), spec_join(ws, seq![sep])) == (
            lower_all(ws.drop_last()),
            ws.last(),
        ),
    decreases ws.len(),
{
    if ws.len() == 1 {
        assert(one_piece(ws[0]));
        lemma_scan_word(Seq::empty(), ws[0]);
        assert(lower_all(ws.drop_last()) =~= Seq::<Seq<char>>::empty());
    } else {
        let dl = ws.drop_last();
        assert forall|i: int| 0 <= i < dl.len() implies one_piece(#[trigger] dl[i]) by {
            assert(dl[i] == ws[i]);
        }
        lemma_scan_join(dl, sep);
        let j = spec_join(dl, seq![sep]);
        let last = ws.last();
        assert(one_piece(ws[ws.len() - 1]));
        lemma_scan_concat(scan_start(), j + seq![sep], last);
        lemma_scan_concat(scan_start(), j, seq![sep]);
        let mid = scan_from(scan_start(), j);
        assert(seq![sep].drop_last() =~= Seq::<char>::empty());
        assert(scan_from(mid, seq![sep].drop_last()) == mid);
        assert(scan_from(mid, seq![sep]) == scan_step(mid, sep));
        assert(dl.last() == dl[dl.len() - 1]);
        let lowered = lower_all(dl);
        assert(scan_step(mid, sep).0 =~= lowered);
        lemma_scan_word(lowered, last);
        assert(ws.drop_last() == dl);
    }
}

/// Joining words that the scan reads in one piece with a separator that is
/// not a letter or digit, and splitting again, gives the words in lower case.
pub proof fn lemma_join_then_normalize(ws: Seq<Seq<char>>, sep: char)
    requires
        forall|i: int| 0 <= i < ws.len() ==> one_piece(#[trigger] ws[i]),
        !is_alnum(sep),
    ensures
        spec_normalize(spec_join(ws, seq![sep])) == lower_all(ws),
{
    if ws.len() == 0 {
        assert(spec_join(ws, seq![sep]) =~= Seq::<char>::empty());
        assert(lower_all(ws) =~= Seq::<Seq<char>>::empty());
    } else {
        lemma_scan_join(ws, sep);
        assert(ws.last() == ws[ws.len() - 1]);
        assert(lower_all(ws) =~= lower_all(ws.drop_last()).push(lower_seq(ws.last())));
    }
}

pub open spec fn upper_all(ws: Seq<Seq<char>>) -> Seq<Seq<char>> {
    ws.map_values(|w: Seq<char>| upper_seq(w))
}

proof fn lemma_upper_join(ws: Seq<Seq<char>>, sep: char)
    requires
        '\0' <= sep <= '\u{7f}',
        !is_lower(sep),
        forall|i: int| 0 <= i < ws.len() ==> vstd::utf8::is_ascii_chars(#[trigger] ws[i]),
    ensures
        upper_seq(spec_join(ws, seq![sep])) == spec_join(upper_all(ws), seq![sep]),
        vstd::utf8::is_ascii_chars(spec_join(ws, seq![sep])),
    decreases ws.len(),
{
    let j = spec_join(ws, seq![sep]);
    if ws.len() == 0 {
        assert(upper_seq(j) =~= spec_join(upper_all(ws), seq![sep]));
    } else if ws.len() == 1 {
        assert(vstd::utf8::is_ascii_chars(ws[0]));
        assert(upper_all(ws)[0] == upper_seq(ws[0]));
    } else {
        let dl = ws.drop_last();
        assert forall|i: int| 0 <= i < dl.len() implies vstd::utf8::is_ascii_chars(#[trigger] dl[i]) by {
            assert(dl[i] == ws[i]);
        }
        lemma_upper_join(dl, sep);
        let a = spec_join(dl, seq![sep]);
        let last = ws.last();
        assert(vstd::utf8::is_ascii_chars(ws[ws.len() - 1]));
        assert(j == a + seq![sep] + last);
        assert(upper_seq(j) =~= upper_seq(a) + seq![sep] + upper_seq(last));
        assert(upper_all(ws).drop_last() =~= upper_all(dl));
        assert(upper_all(ws).last() == upper_seq(last));
        assert forall|i: int| 0 <= i < j.len() implies '\0' <= #[trigger] j[i] <= '\u{7f}' by {
            if i < a.len() {
                assert(j[i] == a[i]);
            } else if i == a.len() {
                assert(j[i] == sep);
            } else {
                assert(j[i] == last[i - a.len() - 1]);
            }
        }
    }
}

proof fn lemma_word_ok_upper(w: Seq<char>)
    requires
        word_ok(w),
    ensures
        vstd::utf8::is_ascii_chars(w),
        one_piece(upper_seq(w)),
        lower_seq(upper_seq(w)) == w,
{
    let u = upper_seq(w);
    assert forall|j: int| 0 <= j < w.len() implies '\0' <= #[trigger] w[j] <= '\u{7f}' by {
        assert(is_lower(w[j]) || is_digit(w[j]));
    }
    if forall|j: int| 0 <= j < w.len() ==> is_lower(#[trigger] w[j]) {
        assert(all_upper(u)) by {
            assert forall|j: int| 0 <= j < u.len() implies is_upper(#[trigger] u[j]) by {
                assert(is_lower(w[j]));
            }
        }
    } else {
        assert(all_digit(u)) by {
            assert forall|j: int| 0 <= j < u.len() implies is_digit(#[trigger] u[j]) by {
                assert(is_digit(w[j]));
            }
        }
    }
    assert(lower_seq(u) =~= w) by {
        assert forall|j: int| 0 <= j < w.len() implies #[trigger] lower_seq(u)[j] == w[j] by {
            assert(is_lower(w[j]) || is_digit(w[j]));
        }
    }
}

proof fn lemma_word_ok_title(w: Seq<char>)
    requires
        word_ok(w),
    ensures
        one_piece(w),
        lower_seq(w) == w,
        one_piece(spec_capitalize(w)),
        lower_seq(spec_capitalize(w)) == w,
{
    assert(lower_seq(w) =~= w) by {
        assert forall|j: int| 0 <= j < w.len() implies #[trigger] lower_seq(w)[j] == w[j] by {
            assert(is_lower(w[j]) || is_digit(w[j]));
        }
    }
    let c = w[0];
    assert(is_lower(c) || is_digit(c));
    assert(is_ascii_char(c));
    let cap = spec_capitalize(w);
    assert(cap =~= seq![ascii_upper(c)] + w.skip(1));
    if forall|j: int| 0 <= j < w.len() ==> is_lower(#[trigger] w[j]) {
        assert(is_upper(ascii_upper(c)));
        assert(ascii_lower(ascii_upper(c)) == c);
        assert(all_alpha(cap)) by {
            assert forall|j: int| 0 <= j < cap.len() implies is_alpha(#[trigger] cap[j]) by {
                if j > 0 {
                    assert(cap[j] == w[j]);
                }
            }
        }
        assert forall|j: int| 1 <= j < cap.len() implies is_lower(#[trigger] cap[j]) by {
            assert(cap[j] == w[j]);
        }
        assert(all_alpha(w));
    } else {
        assert(all_digit(w));
        assert(ascii_upper(c) == c);
        assert(cap =~= w);
    }
    assert(lower_seq(cap) =~= w) by {
        assert forall|j: int| 0 <= j < w.len() implies #[trigger] lower_seq(cap)[j] == w[j] by {
            if j > 0 {
                assert(cap[j] == w[j]);
                assert(is_lower(w[j]) || is_digit(w[j]));
            }
        }
    }
}

/// Converting to snake, upper snake, capitalized snake, kebab, dot or title
/// case keeps the words: splitting the result again gives the same words.
pub proof fn lemma_separated_styles_keep_words(s: Seq<char>, mode: SccFormat)
    requires
        mode == SccFormat::Snake || mode == SccFormat::SnakeUpper || mode == SccFormat::SnakeCap
            || mode == SccFormat::Kebab || mode == SccFormat::Dot || mode == SccFormat::Title,
    ensures
        spec_normalize(spec_convert(spec_normalize(s), mode, s)) == spec_normalize(s),
{
    let ws = spec_normalize(s);
    lemma_normalize_words_ok(s);
    assert forall|i: int| 0 <= i < ws.len() implies one_piece(#[trigger] ws[i]) by {
        lemma_word_ok_title(ws[i]);
    }
    let caps = capitalized(ws);
    assert forall|i: int| 0 <= i < caps.len() implies one_piece(#[trigger] caps[i]) by {
        lemma_word_ok_title(ws[i]);
    }
    assert(lower_all(ws) =~= ws) by {
        assert forall|i: int| 0 <= i < ws.len() implies #[trigger] lower_all(ws)[i] == ws[i] by {
            lemma_word_ok_title(ws[i]);
        }
    }
    assert(lower_all(caps) =~= ws) by {
        assert forall|i: int| 0 <= i < ws.len() implies #[trigger] lower_all(caps)[i] == ws[i] by {
            lemma_word_ok_title(ws[i]);
        }
    }
    match mode {
        SccFormat::Snake => lemma_join_then_normalize(ws, '_'),
        SccFormat::Kebab => lemma_join_then_normalize(ws, '-'),
        SccFormat::Dot => lemma_join_then_normalize(ws, '.'),
        SccFormat::Title => lemma_join_then_normalize(caps, ' '),
        SccFormat::SnakeCap => lemma_join_then_normalize(caps, '_'),
        _ => {
            let ups = upper_all(ws);
            assert forall|i: int| 0 <= i < ws.len() implies vstd::utf8::is_ascii_chars(
                #[trigger] ws[i],
            ) by {
                lemma_word_ok_upper(ws[i]);
            }
            assert forall|i: int| 0 <= i < ups.len() implies one_piece(#[trigger] ups[i]) by {
                lemma_word_ok_upper(ws[i]);
            }
            assert(lower_all(ups) =~= ws) by {
                assert forall|i: int| 0 <= i < ws.len() implies #[trigger] lower_all(ups)[i]
                    == ws[i] by {
                    lemma_word_ok_upper(ws[i]);
                }
            }
            lemma_upper_join(ws, '_');
            lemma_join_then_normalize(ups, '_');
        },
    }
}


/// The mocking style changes only letters: a text with no alphabetic
/// character comes out as it went in, whatever the coins.
pub proof fn lemma_spongebob_keeps_other_text(s: Seq<char>, coins: Seq<bool>)
    requires
        coins.len() == s.len(),
        forall|i: int| 0 <= i < s.len() ==> !is_letter(#[trigger] s[i]),
    ensures
        spec_spongebob(s, coins) == s,
    decreases s.len(),
{
    let pieces = Seq::new(s.len(), |i: int| sponge_piece(s[i], coins[i]));
    if s.len() > 0 {
        let d = s.drop_last();
        let dc = coins.drop_last();
        assert forall|i: int| 0 <= i < d.len() implies !is_letter(#[trigger] d[i]) by {
            assert(d[i] == s[i]);
        }
        lemma_spongebob_keeps_other_text(d, dc);
        let dpieces = Seq::new(d.len(), |i: int| sponge_piece(d[i], dc[i]));
        assert(pieces =~= dpieces.push(seq![s.last()])) by {
            assert(!is_letter(s[s.len() - 1]));
        }
        dpieces.lemma_flatten_push(seq![s.last()]);
        assert(d.push(s.last()) =~= s);
    } else {
        assert(pieces =~= Seq::<Seq<char>>::empty());
        assert(s =~= Seq::<char>::empty());
    }
}

/// The mocking style of an ASCII text has its length, and each character is
/// the original's: a letter upper- or lower-cased as its coin says, anything
/// else as it was.
pub proof fn lemma_spongebob_ascii(s: Seq<char>, coins: Seq<bool>)
    requires
        coins.len() == s.len(),
        vstd::utf8::is_ascii_chars(s),
    ensures
        spec_spongebob(s, coins).len() == s.len(),
        forall|i: int|
            0 <= i < s.len() ==> #[trigger] spec_spongebob(s, coins)[i] == if is_alpha(s[i]) {
                if coins[i] {
                    ascii_upper(s[i])
                } else {
                    ascii_lower(s[i])
                }
            } else {
                s[i]
            },
    decreases s.len(),
{
    let pieces = Seq::new(s.len(), |i: int| sponge_piece(s[i], coins[i]));
    let want = Seq::new(
        s.len(),
        |i: int|
            if is_alpha(s[i]) {
                if coins[i] {
                    ascii_upper(s[i])
                } else {
                    ascii_lower(s[i])
                }
            } else {
                s[i]
            },
    );
    if s.len() > 0 {
        let d = s.drop_last();
        let dc = coins.drop_last();
        assert forall|i: int| 0 <= i < d.len() implies '\0' <= #[trigger] d[i] <= '\u{7f}' by {
            assert(d[i] == s[i]);
        }
        lemma_spongebob_ascii(d, dc);
        let dpieces = Seq::new(d.len(), |i: int| sponge_piece(d[i], dc[i]));
        let n = s.len() - 1;
        assert('\0' <= s[n] <= '\u{7f}');
        assert(is_ascii_char(s[n]));
        assert(pieces =~= dpieces.push(seq![want[n]]));
        dpieces.lemma_flatten_push(seq![want[n]]);
        let dwant = Seq::new(
            d.len(),
            |i: int|
                if is_alpha(d[i]) {
                    if dc[i] {
                        ascii_upper(d[i])
                    } else {
                        ascii_lower(d[i])
                    }
                } else {
                    d[i]
                },
        );
        assert(dpieces.flatten() =~= dwant);
        assert(want =~= dwant.push(want[n]));
        assert(spec_spongebob(s, coins) =~= want);
    } else {
        assert(pieces =~= Seq::<Seq<char>>::empty());
        assert(spec_spongebob(s, coins) =~= want);
    }
}

proof fn lemma_scan_one(st: ScanState, c: char)
    ensures
        scan_from(st, seq![c]) == scan_step(st, c),
{
    assert(seq![c].drop_last() =~= Seq::<char>::empty());
    assert(scan_from(st, seq![c].drop_last()) == st);
}

/// A word read after a pending word, across a word break, closes the pending
/// word and becomes the new pending word.
proof fn lemma_scan_word_after(w: Seq<Seq<char>>, cur: Seq<char>, word: Seq<char>)
    requires
        cur.len() > 0,
        one_piece(word),
        is_boundary(cur.last(), word[0]),
        !is_lower(word[0]),
    ensures
        scan_from((w, cur), word) == (w.push(lower_seq(cur)), word),
{
    let w2 = w.push(lower_seq(cur));
    let c = word[0];
    let rest = word.skip(1);
    assert(word =~= seq![c] + rest);
    assert(is_alnum(c)) by {
        if all_digit(word) {
            assert(is_digit(word[0]));
        } else if all_upper(word) {
            assert(is_upper(word[0]));
        } else {
            assert(is_alpha(word[0]));
        }
    }
    lemma_scan_concat((w, cur), seq![c], rest);
    lemma_scan_concat((w2, Seq::empty()), seq![c], rest);
    lemma_scan_one((w, cur), c);
    lemma_scan_one((w2, Seq::empty()), c);
    lemma_scan_word(w2, word);
}

/// Words each read in one piece, written one after another with a word break
/// at every joint, are read back as those words.
proof fn lemma_scan_parts(ps: Seq<Seq<char>>)
    requires
        ps.len() > 0,
        forall|i: int| 0 <= i < ps.len() ==> one_piece(#[trigger] ps[i]),
        forall|i: int|
            1 <= i < ps.len() ==> is_boundary(ps[i - 1].last(), #[trigger] ps[i][0]) && !is_lower(
                ps[i][0],
            ),
    ensures
        scan_from(scan_start(), ps.flatten()) == (lower_all(ps.drop_last()), ps.last()),
    decreases ps.len(),
{
    let dl = ps.drop_last();
    assert(ps =~= dl.push(ps.last()));
    dl.lemma_flatten_push(ps.last());
    assert(one_piece(ps[ps.len() - 1]));
    if ps.len() == 1 {
        assert(dl =~= Seq::<Seq<char>>::empty());
        assert(dl.flatten() =~= Seq::<char>::empty());
        assert(dl.flatten() + ps.last() =~= ps.last());
        lemma_scan_word(Seq::empty(), ps.last());
        assert(lower_all(dl) =~= Seq::<Seq<char>>::empty());
    } else {
        assert forall|i: int| 0 <= i < dl.len() implies one_piece(#[trigger] dl[i]) by {
            assert(dl[i] == ps[i]);
        }
        assert forall|i: int| 1 <= i < dl.len() implies is_boundary(dl[i - 1].last(), #[trigger] dl[i][0])
            && !is_lower(dl[i][0]) by {
            assert(dl[i] == ps[i]);
            assert(dl[i - 1] == ps[i - 1]);
            assert(ps[i][0] == dl[i][0]);
        }
        lemma_scan_parts(dl);
        lemma_scan_concat(scan_start(), dl.flatten(), ps.last());
        let n = ps.len() - 1;
        assert(ps[n] == ps.last());
        assert(ps[n - 1] == dl.last());
        assert(is_boundary(ps[n - 1].last(), ps[n][0]) && !is_lower(ps[n][0]));
        assert(one_piece(dl[dl.len() - 1]));
        lemma_scan_word_after(lower_all(dl.drop_last()), dl.last(), ps.last());
        assert(lower_all(dl.drop_last()).push(lower_seq(dl.last())) =~= lower_all(dl));
    }
}

/// Camel case keeps the words: splitting the camel-case form of lower-case
/// words again gives those words, as long as no two neighbouring words are
/// both digits (they would run together) and every word after the first that
/// is made of letters has at least two of them (so that it ends in a
/// lower-case letter).
pub proof fn lemma_camel_splits_back(ws: Seq<Seq<char>>, original: Seq<char>)
    requires
        forall|i: int| 0 <= i < ws.len() ==> word_ok(#[trigger] ws[i]),
        forall|i: int| 1 <= i < ws.len() ==> all_digit(#[trigger] ws[i]) || ws[i].len() >= 2,
        forall|i: int| 1 <= i < ws.len() ==> !(all_digit(ws[i - 1]) && all_digit(#[trigger] ws[i])),
    ensures
        spec_normalize(spec_convert(ws, SccFormat::Camel, original)) == ws,
{
    let ps = camel_parts(ws);
    if ws.len() == 0 {
        assert(ps =~= Seq::<Seq<char>>::empty());
        assert(ps.flatten() =~= Seq::<char>::empty());
        assert(spec_normalize(Seq::<char>::empty()) =~= Seq::<Seq<char>>::empty());
    } else {
        assert forall|i: int| 0 <= i < ps.len() implies one_piece(#[trigger] ps[i]) && lower_seq(ps[i])
            == ws[i] by {
            lemma_word_ok_title(ws[i]);
        }
        assert forall|i: int| 1 <= i < ps.len() implies is_boundary(ps[i - 1].last(), #[trigger] ps[i][0])
            && !is_lower(ps[i][0]) by {
            let w = ws[i];
            let v = ws[i - 1];
            assert(word_ok(w));
            assert(word_ok(v));
            assert(is_ascii_char(w[0])) by {
                assert(is_lower(w[0]) || is_digit(w[0]));
            }
            assert(ps[i] == spec_capitalize(w));
            assert(ps[i][0] == ascii_upper(w[0]));
            // the last character of the word before
            let p = ps[i - 1];
            if i - 1 == 0 {
                assert(p == v);
            } else {
                assert(p == spec_capitalize(v));
                assert(is_ascii_char(v[0])) by {
                    assert(is_lower(v[0]) || is_digit(v[0]));
                }
                if v.len() >= 2 {
                    assert(p.last() == v.last());
                } else {
                    assert(all_digit(v));
                    assert(p.last() == ascii_upper(v[0]));
                }
            }
            assert(p.last() == p[p.len() - 1]);
            assert(v.last() == v[v.len() - 1]);
            assert(is_lower(v.last()) || is_digit(v.last()));
            assert(is_lower(p.last()) || is_digit(p.last()));
            assert(is_lower(w[0]) || is_digit(w[0]));
            if is_digit(p.last()) && is_digit(w[0]) {
                assert(all_digit(v)) by {
                    if !all_digit(v) {
                        assert(is_lower(v[v.len() - 1]));
                    }
                }
                assert(all_digit(w)) by {
                    if !all_digit(w) {
                        assert(is_lower(w[0]));
                    }
                }
            }
        }
        lemma_scan_parts(ps);
        assert(ps.last() == ps[ps.len() - 1]);
        assert(one_piece(ps[ps.len() - 1]));
        assert(lower_all(ps.drop_last()).push(lower_seq(ps.last())) =~= ws);
    }
}

/// An upper-case run before a capitalized word is a word of its own: a
/// lower-case word `a`, upper-case letters `x` (one or more) and a word of
/// an upper-case letter `u` and lower-case letters `l` split into `a`, `x`
/// and `u` + `l`, each in lower case ("isAValidName" gives "is", "a",
/// "valid", "name"; "parseHTTPResponse" gives "parse", "http", "response").
pub proof fn lemma_normalize_acronym_before_word(a: Seq<char>, x: Seq<char>, u: char, l: Seq<char>)
    requires
        a.len() > 0,
        forall|i: int| 0 <= i < a.len() ==> is_lower(#[trigger] a[i]),
        x.len() > 0,
        forall|i: int| 0 <= i < x.len() ==> is_upper(#[trigger] x[i]),
        is_upper(u),
        l.len() > 0,
        forall|i: int| 0 <= i < l.len() ==> is_lower(#[trigger] l[i]),
    ensures
        spec_normalize(a + x + seq![u] + l) == seq![a, lower_seq(x), lower_seq(seq![u] + l)],
{
    let w = seq![u] + l;
    assert(one_piece(a)) by {
        assert(all_alpha(a)) by {
            assert forall|j: int| 0 <= j < a.len() implies is_alpha(#[trigger] a[j]) by {
                assert(is_lower(a[j]));
            }
        }
    }
    assert(lower_seq(a) =~= a) by {
        assert forall|j: int| 0 <= j < a.len() implies #[trigger] lower_seq(a)[j] == a[j] by {
            assert(is_lower(a[j]));
        }
    }
    assert(one_piece(x)) by {
        assert(all_upper(x));
    }
    assert(one_piece(w)) by {
        assert(all_alpha(w)) by {
            assert forall|j: int| 0 <= j < w.len() implies is_alpha(#[trigger] w[j]) by {
                if j > 0 {
                    assert(w[j] == l[j - 1]);
                }
            }
        }
        assert forall|j: int| 1 <= j < w.len() implies is_lower(#[trigger] w[j]) by {
            assert(w[j] == l[j - 1]);
        }
    }
    // a: one pending word
    lemma_scan_word(Seq::empty(), a);
    let st0: ScanState = (Seq::empty(), a);
    // x: a word break closes a
    assert(a.last() == a[a.len() - 1]);
    assert(is_boundary(a.last(), x[0]));
    lemma_scan_word_after(Seq::empty(), a, x);
    let ws1 = Seq::<Seq<char>>::empty().push(lower_seq(a));
    let st1: ScanState = (ws1, x);
    // u: joins the upper-case run
    let xu = x.push(u);
    assert(x.last() == x[x.len() - 1]);
    lemma_scan_one(st1, u);
    assert(scan_step(st1, u) == (ws1, xu));
    // the first lower-case letter ends the run before u
    let l0 = l[0];
    let ws2 = ws1.push(lower_seq(x));
    assert(xu.drop_last() =~= x);
    assert(is_acronym_end(xu, l0));
    lemma_scan_one((ws1, xu), l0);
    assert(scan_step((ws1, xu), l0) == (ws2, seq![u, l0]));
    // the rest of the capitalized word
    let rest = l.skip(1);
    assert(w =~= seq![u, l0] + rest);
    lemma_scan_word(ws2, w);
    lemma_scan_concat((ws2, Seq::empty()), seq![u, l0], rest);
    lemma_scan_concat((ws2, Seq::empty()), seq![u], seq![l0]);
    assert(seq![u] + seq![l0] =~= seq![u, l0]);
    lemma_scan_one((ws2, Seq::empty()), u);
    lemma_scan_one((ws2, seq![u]), l0);
    assert(scan_from((ws2, Seq::empty()), seq![u, l0]) == (ws2, seq![u, l0]));
    // putting the pieces together
    let s = a + x + seq![u] + l;
    assert(s =~= a + x + seq![u] + seq![l0] + rest);
    lemma_scan_concat(scan_start(), a, x);
    lemma_scan_concat(scan_start(), a + x, seq![u]);
    lemma_scan_concat(scan_start(), a + x + seq![u], seq![l0]);
    lemma_scan_concat(scan_start(), a + x + seq![u] + seq![l0], rest);
    assert(scan_from(scan_start(), s) == (ws2, w));
    assert(ws2.push(lower_seq(w)) =~= seq![a, lower_seq(x), lower_seq(w)]);
}

} // verus!
