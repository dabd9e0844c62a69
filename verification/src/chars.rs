//! Character classes used when counting pronunciation units.

use vstd::prelude::*;

verus! {

/// Characters that are ignored when counting pronunciation by syllable unit:
/// the moraic nasal, the geminate marker and the long-vowel mark.
pub open spec fn is_syllable_skip(c: char) -> bool {
    c == 'ン' || c == 'ッ' || c == 'ー'
}

/// Small kana that are pronounced as a set with the previous character.
pub open spec fn is_small_kana(c: char) -> bool {
    ||| c == 'ァ'
    ||| c == 'ィ'
    ||| c == 'ゥ'
    ||| c == 'ェ'
    ||| c == 'ォ'
    ||| c == 'ャ'
    ||| c == 'ュ'
    ||| c == 'ョ'
}

/// Symbols that cannot be counted as pronunciation units.
pub open spec fn is_symbol(c: char) -> bool {
    ||| c == '～'
    ||| c == '「'
    ||| c == '」'
    ||| c == '。'
    ||| c == '、'
    ||| c == '!'
    ||| c == '！'
    ||| c == '?'
    ||| c == '？'
    ||| c == '"'
    ||| c == '#'
    ||| c == '$'
    ||| c == '%'
    ||| c == '&'
    ||| c == '\''
    ||| c == '('
    ||| c == ')'
    ||| c == '（'
    ||| c == '）'
    ||| c == '-'
    ||| c == '―'
    ||| c == '='
    ||| c == '＝'
    ||| c == '^'
    ||| c == '＾'
    ||| c == '|'
    ||| c == '\\'
    ||| c == '｜'
    ||| c == '￥'
    ||| c == '@'
    ||| c == '`'
    ||| c == '['
    ||| c == ']'
    ||| c == '{'
    ||| c == '}'
    ||| c == '｛'
    ||| c == '｝'
    ||| c == ';'
    ||| c == '；'
    ||| c == ':'
    ||| c == '：'
    ||| c == '+'
    ||| c == '＋'
    ||| c == '*'
    ||| c == '＊'
    ||| c == '<'
    ||| c == '＜'
    ||| c == '>'
    ||| c == '＞'
    ||| c == '_'
}

/// Decides whether `c` is skipped by the syllable metric.
pub fn syllable_skip_char(c: char) -> (b: bool)
    ensures
        b == is_syllable_skip(c),
{
    c == 'ン' || c == 'ッ' || c == 'ー'
}

/// Decides whether `c` is a small (combining) kana.
pub fn small_kana_char(c: char) -> (b: bool)
    ensures
        b == is_small_kana(c),
{
    c == 'ァ' || c == 'ィ' || c == 'ゥ' || c == 'ェ' || c == 'ォ' || c == 'ャ' || c == 'ュ'
        || c == 'ョ'
}

/// Decides whether `c` is an uncountable symbol.
pub fn symbol_char(c: char) -> (b: bool)
    ensures
        b == is_symbol(c),
{
    c == '～' || c == '「' || c == '」' || c == '。' || c == '、' || c == '!' || c == '！'
        || c == '?' || c == '？' || c == '"' || c == '#' || c == '$' || c == '%' || c == '&'
        || c == '\'' || c == '(' || c == ')' || c == '（' || c == '）' || c == '-' || c == '―'
        || c == '=' || c == '＝' || c == '^' || c == '＾' || c == '|' || c == '\\' || c == '｜'
        || c == '￥' || c == '@' || c == '`' || c == '[' || c == ']' || c == '{' || c == '}'
        || c == '｛' || c == '｝' || c == ';' || c == '；' || c == ':' || c == '：' || c == '+'
        || c == '＋' || c == '*' || c == '＊' || c == '<' || c == '＜' || c == '>' || c == '＞'
        || c == '_'
}

/// The number of occurrences of `c` in `s`.
pub open spec fn occurrences(s: Seq<char>, c: char) -> nat {
    s.filter(|x: char| x == c).len()
}

/// The number of index pairs `(i, j)` with `s1[i] == s2[j]`.
pub open spec fn dup_count(s1: Seq<char>, s2: Seq<char>) -> nat
    decreases s1.len(),
{
    if s1.len() == 0 {
        0
    } else {
        occurrences(s2, s1[0]) + dup_count(s1.drop_first(), s2)
    }
}

/// Returns the counts of duplicated elements in two vectors: the number of
/// positions in `list1` paired with the positions in `list2` holding the
/// same character.
pub fn dup_num(list1: &Vec<char>, list2: &Vec<char>) -> (num: usize)
    requires
        list1@.len() * list2@.len() <= usize::MAX,
    ensures
        num == dup_count(list1@, list2@),
{
    let mut num: usize = 0;
    let mut i: usize = 0;
    while i < list1.len()
        invariant
            i <= list1@.len(),
            list1@.len() * list2@.len() <= usize::MAX,
            num == dup_count(list1@.take(i as int), list2@),
            num <= i * list2@.len(),
        decreases list1@.len() - i,
    {
        let mut j: usize = 0;
        let mut found: usize = 0;
        while j < list2.len()
            invariant
                j <= list2@.len(),
                found == occurrences(list2@.take(j as int), list1@[i as int]),
                found <= j,
                i < list1@.len(),
            decreases list2@.len() - j,
        {
            proof {
                lemma_occurrences_step(list2@, j as int, list1@[i as int]);
            }
            if list1[i] == list2[j] {
                found = found + 1;
            }
            j = j + 1;
        }
        proof {
            assert(list2@.take(list2@.len() as int) =~= list2@);
            lemma_dup_count_step(list1@, i as int, list2@);
            assert(num + found <= i * list2@.len() + list2@.len()) by {
                assert(found <= list2@.len());
            }
            assert((i + 1) * list2@.len() == i * list2@.len() + list2@.len()) by (nonlinear_arith);
            vstd::arithmetic::mul::lemma_mul_inequality(
                i + 1 as int,
                list1@.len() as int,
                list2@.len() as int,
            );
        }
        num = num + found;
        i = i + 1;
    }
    proof {
        assert(list1@.take(list1@.len() as int) =~= list1@);
    }
    num
}

/// Counting occurrences in one more element of `s`.
proof fn lemma_occurrences_step(s: Seq<char>, j: int, c: char)
    requires
        0 <= j < s.len(),
    ensures
        occurrences(s.take(j + 1), c) == occurrences(s.take(j), c) + (if s[j] == c {
            1int
        } else {
            0int
        }),
{
    assert(s.take(j + 1).drop_last() =~= s.take(j));
    reveal(Seq::filter);
    assert(s.take(j + 1).last() == s[j]);
}

/// Unfolding `dup_count` at position `i` of `s1`.
proof fn lemma_dup_count_step(s1: Seq<char>, i: int, s2: Seq<char>)
    requires
        0 <= i < s1.len(),
    ensures
        dup_count(s1.take(i + 1), s2) == dup_count(s1.take(i), s2) + occurrences(s2, s1[i]),
    decreases i,
{
    if i == 0 {
        assert(s1.take(1).drop_first() =~= s1.take(0));
        assert(s1.take(1)[0] == s1[0]);
        assert(dup_count(s1.take(0), s2) == 0);
    } else {
        lemma_dup_count_step(s1.drop_first(), i - 1, s2);
        assert(s1.take(i + 1).drop_first() =~= s1.drop_first().take(i));
        assert(s1.take(i).drop_first() =~= s1.drop_first().take(i - 1));
        assert(s1.take(i + 1)[0] == s1[0]);
        assert(s1.take(i)[0] == s1[0]);
        assert(s1.drop_first()[i - 1] == s1[i]);
    }
}

/// Collects the characters of `s` into a vector.
pub fn chars_of(s: &str) -> (v: Vec<char>)
    ensures
        v@ == s@,
{
    broadcast use vstd::string::axiom_spec_iter;

    let mut v: Vec<char> = Vec::new();
    for c in it: s.chars()
        invariant
            it.seq() == s@,
            v@ == s@.take(it.index() as int),
    {
        v.push(c);
    }
    assert(v@ =~= s@);
    v
}

} // verus!
