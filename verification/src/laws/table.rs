//! How a declaration of payload types is read.

use vstd::prelude::*;

use crate::codegen::syntax::{byte_text, ident_text, path_text, type_text};
use crate::codegen::type_table::{
    declares, depth_after, entries_parsed, entry_parsed, extent, head_parsed, lemma_extent_bounds,
    pass_of, text_of, TableError, TokenKind, TokenView, TypeTableEntry,
};

verus! {

/// The token at `k` is the punctuation character `c`.
pub open spec fn punct(toks: Seq<TokenView>, k: int, c: Seq<char>) -> bool {
    0 <= k < toks.len() && toks[k].kind == TokenKind::Mark && toks[k].text == c
}

/// The token at `k` is the word `text`.
pub open spec fn word(toks: Seq<TokenView>, k: int, text: Seq<char>) -> bool {
    0 <= k < toks.len() && toks[k].kind == TokenKind::Word && toks[k].text == text
}

/// The token at `k` closes an angle bracket: it is `>`, and not the second half of an arrow.
pub open spec fn closes(toks: Seq<TokenView>, k: int) -> bool {
    punct(toks, k, ">"@) && !(punct(toks, k - 1, "-"@) && toks[k - 1].joint)
}

/// How deep the token at `k` is nested in angle brackets that were opened at `i` or later.
pub open spec fn nesting(toks: Seq<TokenView>, i: int, k: int) -> int
    decreases k - i,
{
    if k <= i {
        0
    } else {
        let before = nesting(toks, i, k - 1);
        if punct(toks, k - 1, "<"@) {
            before + 1
        } else if closes(toks, k - 1) && before > 0 {
            before - 1
        } else {
            before
        }
    }
}

/// The token at `k` ends what begins at `i`: a comma or semicolon outside of angle brackets.
pub open spec fn ends(toks: Seq<TokenView>, i: int, k: int) -> bool {
    nesting(toks, i, k) == 0 && (punct(toks, k, ","@) || punct(toks, k, ";"@))
}

/// A path or type ends at the first comma or semicolon outside of angle brackets, or with the
/// tokens.
pub proof fn law_extent(toks: Seq<TokenView>, i: int, k: int)
    requires
        0 <= i <= toks.len(),
    ensures
        ({
            let end = extent(toks, i, 0);
            &&& i <= end <= toks.len()
            &&& end < toks.len() ==> ends(toks, i, end)
            &&& i <= k < end ==> !ends(toks, i, k)
        }),
{
    lemma_words();
    lemma_extent_from(toks, i, i, k);
}

proof fn lemma_words()
    ensures
        "<"@ != ">"@,
        ","@ != ";"@,
        "="@ != ";"@,
{
    reveal_strlit("<");
    reveal_strlit(">");
    reveal_strlit(",");
    reveal_strlit(";");
    reveal_strlit("=");
    assert("<"@[0] != ">"@[0]);
    assert(","@[0] != ";"@[0]);
    assert("="@[0] != ";"@[0]);
}

proof fn lemma_extent_from(toks: Seq<TokenView>, i: int, m: int, k: int)
    requires
        0 <= i <= m <= toks.len(),
        nesting(toks, i, m) >= 0,
        "<"@ != ">"@,
    ensures
        ({
            let end = extent(toks, m, nesting(toks, i, m) as nat);
            &&& m <= end <= toks.len()
            &&& end < toks.len() ==> ends(toks, i, end)
            &&& m <= k < end ==> !ends(toks, i, k)
        }),
    decreases toks.len() - m,
{
    let depth = nesting(toks, i, m) as nat;
    if m < toks.len() && !ends(toks, i, m) {
        assert(depth_after(toks, m, depth) == nesting(toks, i, m + 1));
        lemma_extent_from(toks, i, m + 1, k);
    }
}

/// The text of a range of tokens: that of the tokens one after the other, with a space behind each
/// that is not joined to the next.
pub proof fn law_text(toks: Seq<TokenView>, i: int, j: int)
    requires
        0 <= i <= j < toks.len(),
    ensures
        text_of(toks, i, i).len() == 0,
        toks[j].joint ==> text_of(toks, i, j + 1) == text_of(toks, i, j) + toks[j].text,
        !toks[j].joint ==> text_of(toks, i, j + 1) == text_of(toks, i, j) + toks[j].text + " "@,
{
}

/// A declaration begins with `crate_path = path;`, and with nothing else.
pub proof fn law_head(toks: Seq<TokenView>)
    requires
        toks.len() >= 2,
    ensures
        ({
            let end = extent(toks, 2, 0);
            let path = text_of(toks, 2, end);
            let r = head_parsed(toks);
            &&& r is Ok <==> word(toks, 0, "crate_path"@) && ident_text("crate_path"@) && punct(
                toks,
                1,
                "="@,
            ) && path_text(path) && punct(toks, end, ";"@)
            &&& r matches Ok(next) ==> next == end + 1
            &&& r == Err::<int, TableError>(TableError::CratePath) <==> toks[0].kind
                == TokenKind::Word && ident_text(toks[0].text) && toks[0].text != "crate_path"@
        }),
{
    lemma_extent_bounds(toks, 2, 0);
}

/// The entry that begins at `i` is a type with a semicolon behind it, of the default pass.
pub open spec fn plain_entry(toks: Seq<TokenView>, i: int) -> bool {
    let end = extent(toks, i, 0);
    type_text(text_of(toks, i, end)) && punct(toks, end, ";"@)
}

/// The entry that begins at `i` is a type with `, drop_pass = n;` behind it.
pub open spec fn passed_entry(toks: Seq<TokenView>, i: int, n: u8) -> bool {
    let end = extent(toks, i, 0);
    &&& type_text(text_of(toks, i, end))
    &&& punct(toks, end, ","@)
    &&& word(toks, end + 1, "drop_pass"@)
    &&& ident_text("drop_pass"@)
    &&& punct(toks, end + 2, "="@)
    &&& end + 3 < toks.len()
    &&& byte_text(toks[end + 3].text) == Some(n)
    &&& punct(toks, end + 4, ";"@)
}

/// What an entry declares: the type whose text stands there, and the pass that is named, which is
/// at most three. An entry of another form is refused.
pub proof fn law_entry(toks: Seq<TokenView>, i: int, n: u8)
    requires
        0 <= i < toks.len(),
    ensures
        ({
            let end = extent(toks, i, 0);
            let r = entry_parsed(toks, i);
            &&& plain_entry(toks, i) ==> {
                &&& r is Ok
                &&& r.unwrap().0.ty == text_of(toks, i, end)
                &&& r.unwrap().0.drop_pass is None
                &&& r.unwrap().1 == end + 1
            }
            &&& passed_entry(toks, i, n) && n <= 3 ==> {
                &&& r is Ok
                &&& r.unwrap().0.ty == text_of(toks, i, end)
                &&& r.unwrap().0.drop_pass == Some(n)
                &&& r.unwrap().1 == end + 5
            }
            &&& passed_entry(toks, i, n) && n > 3 ==> r is Err && r->Err_0 == TableError::PassRange
            &&& r is Ok ==> plain_entry(toks, i) || (r.unwrap().0.drop_pass is Some
                && r.unwrap().0.drop_pass.unwrap() <= 3 && passed_entry(
                toks,
                i,
                r.unwrap().0.drop_pass.unwrap(),
            ))
        }),
{
    lemma_words();
    lemma_extent_bounds(toks, i, 0);
}

/// What is wrong with an entry whose type is followed by a comma and another word.
pub proof fn law_entry_word(toks: Seq<TokenView>, i: int)
    requires
        0 <= i < toks.len(),
        type_text(text_of(toks, i, extent(toks, i, 0))),
        punct(toks, extent(toks, i, 0), ","@),
        extent(toks, i, 0) + 1 < toks.len(),
        toks[extent(toks, i, 0) + 1].kind == TokenKind::Word,
        ident_text(toks[extent(toks, i, 0) + 1].text),
    ensures
        toks[extent(toks, i, 0) + 1].text != "drop_pass"@ <==> entry_parsed(toks, i) is Err
            && entry_parsed(toks, i)->Err_0 == TableError::DropPass,
{
    lemma_words();
}

/// The entries are read one after the other to the end of the tokens: each begins where the one
/// before it ended, and the first that is refused refuses the declaration.
pub proof fn law_entries(toks: Seq<TokenView>, i: int)
    requires
        0 <= i,
    ensures
        ({
            let r = entries_parsed(toks, i);
            &&& i >= toks.len() ==> r is Ok && r.unwrap().len() == 0
            &&& i < toks.len() && entry_parsed(toks, i) is Err ==> r is Err && r->Err_0
                == entry_parsed(toks, i)->Err_0
            &&& i < toks.len() && entry_parsed(toks, i) is Ok ==> {
                let (entry, next) = entry_parsed(toks, i).unwrap();
                let rest = entries_parsed(toks, next);
                &&& next > i
                &&& rest is Err ==> r is Err && r->Err_0 == rest->Err_0
                &&& rest is Ok ==> {
                    &&& r is Ok
                    &&& r.unwrap().len() == rest.unwrap().len() + 1
                    &&& r.unwrap()[0] == entry
                    &&& r.unwrap().drop_first() == rest.unwrap()
                }
            }
        }),
{
    if i < toks.len() {
        lemma_extent_bounds(toks, i, 0);
        match entry_parsed(toks, i) {
            Ok((entry, next)) => {
                match entries_parsed(toks, next) {
                    Ok(rest) => {
                        assert(entries_parsed(toks, i).unwrap().drop_first() =~= rest);
                    },
                    Err(_) => {},
                }
            },
            Err(_) => {},
        }
    }
}

/// A type without a named pass has pass zero, and the passes that a declaration uses are those of
/// its types.
pub proof fn law_declared_pass(list: Seq<TypeTableEntry>, k: int, pass: u8)
    requires
        0 <= k < list.len(),
    ensures
        list[k].drop_pass is None ==> pass_of(list[k]) == 0,
        list[k].drop_pass is Some ==> pass_of(list[k]) == list[k].drop_pass.unwrap(),
        declares(list, pass_of(list[k])),
        declares(list, pass) ==> exists|j: int|
            0 <= j < list.len() && ((#[trigger] list[j]).drop_pass == Some(pass) || (pass == 0
                && list[j].drop_pass is None)),
{
    if declares(list, pass) {
        let j = choose|j: int| 0 <= j < list.len() && pass_of(#[trigger] list[j]) == pass;
        assert(list[j].drop_pass == Some(pass) || (pass == 0 && list[j].drop_pass is None));
    }
}

} // verus!
