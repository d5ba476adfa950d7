//! The declaration of the payload types of a program:
//!
//! ```text
//! crate_path = PATH; TYPE [, drop_pass = N]; TYPE [, drop_pass = N]; ...
//! ```

use vstd::prelude::*;
use vstd::string::StringExecFns;

use crate::codegen::syntax::{
    byte_literal, byte_text, ident_text, is_ident, is_path, is_type, path_text, same_text,
    type_text,
};

verus! {

/// What kind of token it is.
#[derive(Debug, Clone, Copy, PartialEq, Eq, Structural)]
pub enum TokenKind {
    /// An identifier or a keyword.
    Word,
    /// A punctuation character.
    Mark,
    /// A literal, or a group in brackets with all it holds.
    Unit,
}

/// A token of the declaration.
#[derive(Debug)]
pub struct Token {
    pub kind: TokenKind,
    pub text: String,
    /// A punctuation character that the next one follows immediately.
    pub joint: bool,
}

/// A token.
pub struct TokenView {
    pub kind: TokenKind,
    pub text: Seq<char>,
    pub joint: bool,
}

impl View for Token {
    type V = TokenView;

    open spec fn view(&self) -> TokenView {
        TokenView { kind: self.kind, text: self.text@, joint: self.joint }
    }
}

impl TokenView {
    /// The token is the punctuation character `c`.
    pub open spec fn is_mark(self, c: Seq<char>) -> bool {
        self.kind == TokenKind::Mark && self.text == c
    }
}

/// The tokens of a list.
pub open spec fn tokens(list: Seq<Token>) -> Seq<TokenView> {
    Seq::new(list.len(), |i: int| list[i]@)
}

/// The text of the tokens from `i` up to `j`, with a space behind each that is not joined to the
/// next.
pub open spec fn text_of(toks: Seq<TokenView>, i: int, j: int) -> Seq<char>
    decreases j - i,
{
    if j <= i {
        Seq::empty()
    } else {
        let rest = text_of(toks, i, j - 1) + toks[j - 1].text;
        if toks[j - 1].joint {
            rest
        } else {
            rest + " "@
        }
    }
}

/// Nesting in angle brackets behind the token at `i`, where it is `depth` before it. The second
/// half of an arrow closes nothing.
pub open spec fn depth_after(toks: Seq<TokenView>, i: int, depth: nat) -> nat {
    if toks[i].is_mark("<"@) {
        depth + 1
    } else if toks[i].is_mark(">"@) && depth > 0 && !(i > 0 && toks[i - 1].is_mark("-"@)
        && toks[i - 1].joint) {
        (depth - 1) as nat
    } else {
        depth
    }
}

/// Where the path or type ends that the token at `i` belongs to, `depth` angle brackets deep: at
/// the first comma or semicolon outside of angle brackets.
pub open spec fn extent(toks: Seq<TokenView>, i: int, depth: nat) -> int
    decreases toks.len() - i,
{
    if i >= toks.len() {
        toks.len() as int
    } else if depth == 0 && (toks[i].is_mark(","@) || toks[i].is_mark(";"@)) {
        i
    } else {
        extent(toks, i + 1, depth_after(toks, i, depth))
    }
}

/// The token at `i` is the punctuation character `c`.
pub open spec fn mark_at(toks: Seq<TokenView>, i: int, c: Seq<char>) -> bool {
    i < toks.len() && toks[i].is_mark(c)
}

/// The text of the word at `i`, if there is one.
pub open spec fn word_at(toks: Seq<TokenView>, i: int) -> Option<Seq<char>> {
    if i < toks.len() && toks[i].kind == TokenKind::Word {
        Some(toks[i].text)
    } else {
        None
    }
}

/// Why a declaration is refused.
#[derive(Debug, Clone, Copy, PartialEq, Eq, Structural)]
pub enum TableError {
    /// The tokens do not have the form of a declaration.
    Syntax,
    /// The declaration does not begin with the crate path.
    CratePath,
    /// Something else than a drop pass follows a type.
    DropPass,
    /// The drop pass is out of range.
    PassRange,
    /// There are too many types.
    TooMany,
}

impl TableError {
    /// The text that a compiler error shows.
    pub open spec fn spec_message(self) -> Seq<char> {
        match self {
            TableError::Syntax => "malformed declaration of GC types"@,
            TableError::CratePath => "expected `crate_path = <path>`"@,
            TableError::DropPass => "expected `drop_pass = N` or omit for default 0"@,
            TableError::PassRange => "drop_pass must be 0, 1, 2 or 3"@,
            TableError::TooMany => "too many GC types: maximum 256 entries are supported"@,
        }
    }

    /// The text that a compiler error shows.
    pub fn message(&self) -> (r: String)
        ensures
            r@ == self.spec_message(),
    {
        let text: &str = match self {
            TableError::Syntax => "malformed declaration of GC types",
            TableError::CratePath => "expected `crate_path = <path>`",
            TableError::DropPass => "expected `drop_pass = N` or omit for default 0",
            TableError::PassRange => "drop_pass must be 0, 1, 2 or 3",
            TableError::TooMany => "too many GC types: maximum 256 entries are supported",
        };
        text.to_owned()
    }
}

/// A declared type.
#[derive(Debug)]
pub struct TypeTableEntry {
    pub ty: String,
    pub drop_pass: Option<u8>,
}

/// A declared type.
pub struct EntryView {
    pub ty: Seq<char>,
    pub drop_pass: Option<u8>,
}

impl View for TypeTableEntry {
    type V = EntryView;

    open spec fn view(&self) -> EntryView {
        EntryView { ty: self.ty@, drop_pass: self.drop_pass }
    }
}

/// The entries of a list.
pub open spec fn entries(list: Seq<TypeTableEntry>) -> Seq<EntryView> {
    Seq::new(list.len(), |i: int| list[i]@)
}

/// A declaration.
#[derive(Debug)]
pub struct TypeTableInput {
    pub crate_path: String,
    pub entries: Vec<TypeTableEntry>,
}

/// What stands before the types: the tokens of the head, whether their word is an identifier and
/// whether the text of the path is a path. Gives the position behind the head.
pub open spec fn head_of(toks: Seq<TokenView>, ident: bool, path: bool) -> Result<int, TableError> {
    let end = extent(toks, 2, 0);
    match word_at(toks, 0) {
        Some(key) => if !ident {
            Err(TableError::Syntax)
        } else if key != "crate_path"@ {
            Err(TableError::CratePath)
        } else if !mark_at(toks, 1, "="@) || !path || !mark_at(toks, end, ";"@) {
            Err(TableError::Syntax)
        } else {
            Ok(end + 1)
        },
        None => Err(TableError::Syntax),
    }
}

/// The entry that begins at `i`: whether the text of its type is a type, whether the word that
/// follows it is an identifier, and the value of the literal behind that. Gives the entry and the
/// position behind it.
pub open spec fn entry_of(
    toks: Seq<TokenView>,
    i: int,
    ty: bool,
    ident: bool,
    value: Option<u8>,
) -> Result<(EntryView, int), TableError> {
    let end = extent(toks, i, 0);
    if !ty {
        Err(TableError::Syntax)
    } else if mark_at(toks, end, ","@) {
        match word_at(toks, end + 1) {
            Some(key) => if !ident {
                Err(TableError::Syntax)
            } else if key != "drop_pass"@ {
                Err(TableError::DropPass)
            } else if !mark_at(toks, end + 2, "="@) || value is None {
                Err(TableError::Syntax)
            } else if value.unwrap() > 3 {
                Err(TableError::PassRange)
            } else if !mark_at(toks, end + 4, ";"@) {
                Err(TableError::Syntax)
            } else {
                Ok((EntryView { ty: text_of(toks, i, end), drop_pass: value }, end + 5))
            },
            None => Err(TableError::Syntax),
        }
    } else if mark_at(toks, end, ";"@) {
        Ok((EntryView { ty: text_of(toks, i, end), drop_pass: None }, end + 1))
    } else {
        Err(TableError::Syntax)
    }
}

/// The text at `i`; no text behind the end.
pub open spec fn text_at(toks: Seq<TokenView>, i: int) -> Seq<char> {
    if 0 <= i < toks.len() {
        toks[i].text
    } else {
        Seq::empty()
    }
}

/// The head of a declaration, by the grammar.
pub open spec fn head_parsed(toks: Seq<TokenView>) -> Result<int, TableError> {
    head_of(toks, ident_text(text_at(toks, 0)), path_text(text_of(toks, 2, extent(toks, 2, 0))))
}

/// The entry that begins at `i`, by the grammar.
pub open spec fn entry_parsed(toks: Seq<TokenView>, i: int) -> Result<
    (EntryView, int),
    TableError,
> {
    let end = extent(toks, i, 0);
    entry_of(
        toks,
        i,
        type_text(text_of(toks, i, end)),
        ident_text(text_at(toks, end + 1)),
        byte_text(text_at(toks, end + 3)),
    )
}

pub proof fn lemma_extent_bounds(toks: Seq<TokenView>, i: int, depth: nat)
    requires
        0 <= i,
    ensures
        extent(toks, i, depth) <= toks.len() || toks.len() < i,
        i <= toks.len() ==> i <= extent(toks, i, depth),
    decreases toks.len() - i,
{
    if i < toks.len() {
        if !(depth == 0 && (toks[i].is_mark(","@) || toks[i].is_mark(";"@))) {
            lemma_extent_bounds(toks, i + 1, depth_after(toks, i, depth));
        }
    }
}

/// The entries from `i` on, by the grammar; the first error if there is one.
pub open spec fn entries_parsed(toks: Seq<TokenView>, i: int) -> Result<Seq<EntryView>, TableError>
    decreases toks.len() - i,
{
    if i >= toks.len() || i < 0 {
        Ok(Seq::empty())
    } else {
        match entry_parsed(toks, i) {
            Err(e) => Err(e),
            Ok((entry, next)) => {
                proof {
                    lemma_extent_bounds(toks, i, 0);
                }
                match entries_parsed(toks, next) {
                    Err(e) => Err(e),
                    Ok(rest) => Ok(seq![entry] + rest),
                }
            },
        }
    }
}

fn is_mark(tok: &Token, c: &str) -> (r: bool)
    ensures
        r == tok@.is_mark(c@),
{
    tok.kind == TokenKind::Mark && same_text(&tok.text, c)
}

fn has_mark(toks: &Vec<Token>, i: usize, c: &str) -> (r: bool)
    ensures
        r == mark_at(tokens(toks@), i as int, c@),
{
    i < toks.len() && is_mark(&toks[i], c)
}

/// Where the path or type ends that begins at `i`.
fn find_extent(toks: &Vec<Token>, i: usize) -> (r: usize)
    requires
        i <= toks@.len(),
    ensures
        r == extent(tokens(toks@), i as int, 0),
        i <= r <= toks@.len(),
{
    let ghost v = tokens(toks@);
    let mut j: usize = i;
    let mut depth: usize = 0;
    while j < toks.len() && !(depth == 0 && (is_mark(&toks[j], ",") || is_mark(&toks[j], ";")))
        invariant
            i <= j <= toks@.len(),
            depth <= j - i,
            v == tokens(toks@),
            extent(v, i as int, 0) == extent(v, j as int, depth as nat),
        decreases toks@.len() - j,
    {
        assert(v[j as int] == toks@[j as int]@);
        if is_mark(&toks[j], "<") {
            depth = depth + 1;
        } else if is_mark(&toks[j], ">") && depth > 0 {
            let arrow: bool = j > 0 && is_mark(&toks[j - 1], "-") && toks[j - 1].joint;
            proof {
                if j > 0 {
                    assert(v[j - 1] == toks@[j - 1]@);
                }
            }
            if !arrow {
                depth = depth - 1;
            }
        }
        j = j + 1;
    }
    proof {
        if j < toks@.len() {
            assert(v[j as int] == toks@[j as int]@);
        }
    }
    j
}

/// The text of the tokens from `i` up to `j`.
fn join(toks: &Vec<Token>, i: usize, j: usize) -> (r: String)
    requires
        i <= j <= toks@.len(),
    ensures
        r@ == text_of(tokens(toks@), i as int, j as int),
{
    let ghost v = tokens(toks@);
    let mut out: String = String::new();
    let mut k: usize = i;
    while k < j
        invariant
            i <= k <= j <= toks@.len(),
            v == tokens(toks@),
            out@ == text_of(v, i as int, k as int),
        decreases j - k,
    {
        assert(v[k as int] == toks@[k as int]@);
        out.append(toks[k].text.as_str());
        if !toks[k].joint {
            out.append(" ");
        }
        k = k + 1;
    }
    out
}

/// What stands before the types, given whether its first word is an identifier and whether the
/// text of the path is a path. Gives the path and the position behind the head.
pub fn table_head(toks: &Vec<Token>, ident: bool, path: bool) -> (r: Result<
    (String, usize),
    TableError,
>)
    ensures
        match r {
            Ok((text, next)) => {
                &&& head_of(tokens(toks@), ident, path) == Ok::<int, TableError>(next as int)
                &&& next <= toks@.len()
                &&& text@ == text_of(tokens(toks@), 2, extent(tokens(toks@), 2, 0))
            },
            Err(e) => head_of(tokens(toks@), ident, path) == Err::<int, TableError>(e),
        },
{
    let ghost v = tokens(toks@);
    if toks.len() == 0 {
        return Err(TableError::Syntax);
    }
    assert(v[0] == toks@[0]@);
    if toks[0].kind != TokenKind::Word || !ident {
        return Err(TableError::Syntax);
    }
    if !same_text(&toks[0].text, "crate_path") {
        return Err(TableError::CratePath);
    }
    if !has_mark(toks, 1, "=") || !path {
        return Err(TableError::Syntax);
    }
    let end: usize = find_extent(toks, 2);
    if !has_mark(toks, end, ";") {
        return Err(TableError::Syntax);
    }
    Ok((join(toks, 2, end), end + 1))
}

/// The entry that begins at `i`, given whether the text of its type is a type, whether the word
/// that follows it is an identifier, and the value of the literal behind that. Gives the entry
/// and the position behind it.
pub fn table_entry(toks: &Vec<Token>, i: usize, ty: bool, ident: bool, value: Option<u8>) -> (r:
    Result<(TypeTableEntry, usize), TableError>)
    requires
        i < toks@.len(),
    ensures
        match r {
            Ok((entry, next)) => {
                &&& entry_of(tokens(toks@), i as int, ty, ident, value) == Ok::<
                    (EntryView, int),
                    TableError,
                >((entry@, next as int))
                &&& i < next <= toks@.len()
            },
            Err(e) => entry_of(tokens(toks@), i as int, ty, ident, value) == Err::<
                (EntryView, int),
                TableError,
            >(e),
        },
{
    let ghost v = tokens(toks@);
    let end: usize = find_extent(toks, i);
    if !ty {
        return Err(TableError::Syntax);
    }
    if has_mark(toks, end, ",") {
        if toks.len() - end <= 1 {
            return Err(TableError::Syntax);
        }
        assert(v[end + 1] == toks@[end + 1]@);
        if toks[end + 1].kind != TokenKind::Word || !ident {
            return Err(TableError::Syntax);
        }
        if !same_text(&toks[end + 1].text, "drop_pass") {
            return Err(TableError::DropPass);
        }
        if toks.len() - end <= 2 || !has_mark(toks, end + 2, "=") {
            return Err(TableError::Syntax);
        }
        match value {
            Some(v) => {
                if v > 3 {
                    return Err(TableError::PassRange);
                }
            },
            None => {
                return Err(TableError::Syntax);
            },
        }
        if toks.len() - end <= 4 || !has_mark(toks, end + 4, ";") {
            return Err(TableError::Syntax);
        }
        return Ok((TypeTableEntry { ty: join(toks, i, end), drop_pass: value }, end + 5));
    }
    if end >= toks.len() || !has_mark(toks, end, ";") {
        return Err(TableError::Syntax);
    }
    Ok((TypeTableEntry { ty: join(toks, i, end), drop_pass: None }, end + 1))
}

impl TypeTableInput {
    /// Reads a declaration; the first error if it is refused.
    pub fn parse(toks: &Vec<Token>) -> (r: Result<TypeTableInput, TableError>)
        ensures
            match head_parsed(tokens(toks@)) {
                Err(e) => r == Err::<TypeTableInput, TableError>(e),
                Ok(next) => match entries_parsed(tokens(toks@), next) {
                    Err(e) => r == Err::<TypeTableInput, TableError>(e),
                    Ok(list) => {
                        &&& r matches Ok(input)
                        &&& input.crate_path@ == text_of(
                            tokens(toks@),
                            2,
                            extent(tokens(toks@), 2, 0),
                        )
                        &&& entries(input.entries@) == list
                    },
                },
            },
    {
        let ghost v = tokens(toks@);
        let empty: String = String::new();
        proof {
            reveal_strlit("");
            assert(empty@ =~= Seq::<char>::empty());
        }
        let ident: bool = if toks.len() > 0 {
            is_ident(toks[0].text.as_str())
        } else {
            is_ident(empty.as_str())
        };
        let path: bool = if toks.len() >= 2 {
            let end: usize = find_extent(toks, 2);
            let text: String = join(toks, 2, end);
            is_path(text.as_str())
        } else {
            false
        };
        let (crate_path, start) = match table_head(toks, ident, path) {
            Ok(x) => x,
            Err(e) => {
                proof {
                    if toks@.len() < 2 {
                        assert(!mark_at(v, 1, "="@));
                    }
                }
                return Err(e);
            },
        };
        let mut list: Vec<TypeTableEntry> = Vec::new();
        let mut i: usize = start;
        proof {
            assert(entries(list@) =~= Seq::<EntryView>::empty());
        }
        while i < toks.len()
            invariant
                v == tokens(toks@),
                start <= i <= toks@.len(),
                head_parsed(v) == Ok::<int, TableError>(start as int),
                empty@ == Seq::<char>::empty(),
                match entries_parsed(v, i as int) {
                    Err(e) => entries_parsed(v, start as int) == Err::<
                        Seq<EntryView>,
                        TableError,
                    >(e),
                    Ok(rest) => entries_parsed(v, start as int) == Ok::<
                        Seq<EntryView>,
                        TableError,
                    >(entries(list@) + rest),
                },
            decreases toks@.len() - i,
        {
            let end: usize = find_extent(toks, i);
            let text: String = join(toks, i, end);
            let ty: bool = is_type(text.as_str());
            let word: &String = if toks.len() - end > 1 {
                assert(v[end + 1] == toks@[end + 1]@);
                &toks[end + 1].text
            } else {
                &empty
            };
            let ident: bool = is_ident(word.as_str());
            let literal: &String = if toks.len() - end > 3 {
                assert(v[end + 3] == toks@[end + 3]@);
                &toks[end + 3].text
            } else {
                &empty
            };
            let value: Option<u8> = byte_literal(literal.as_str());
            match table_entry(toks, i, ty, ident, value) {
                Ok((entry, next)) => {
                    let ghost before = entries(list@);
                    let ghost seen = entry@;
                    list.push(entry);
                    proof {
                        assert(entries(list@) =~= before.push(seen));
                        match entries_parsed(v, next as int) {
                            Ok(rest) => {
                                assert(before + (seq![seen] + rest) =~= before.push(seen) + rest);
                            },
                            Err(_) => {},
                        }
                    }
                    i = next;
                },
                Err(e) => {
                    return Err(e);
                },
            }
        }
        assert(entries(list@) + Seq::<EntryView>::empty() =~= entries(list@));
        Ok(TypeTableInput { crate_path, entries: list })
    }
}

/// A row of the table of payload types.
#[derive(Debug)]
pub struct TypeRow {
    pub ty: String,
    /// The id of the type: its position in the table.
    pub id: u8,
    pub drop_pass: u8,
}

/// The table of the payload types of a program.
#[derive(Debug)]
pub struct TypeTable {
    pub rows: Vec<TypeRow>,
    /// The drop passes in use, in ascending order.
    pub drop_passes: Vec<u8>,
}

/// The drop pass of a declared type.
pub open spec fn pass_of(entry: TypeTableEntry) -> u8 {
    match entry.drop_pass {
        Some(p) => p,
        None => 0,
    }
}

/// Some declared type has the drop pass.
pub open spec fn declares(list: Seq<TypeTableEntry>, pass: u8) -> bool {
    exists|k: int| 0 <= k < list.len() && pass_of(#[trigger] list[k]) == pass
}

/// Numbers the declared types in order and lists their drop passes. At most 256 types can be
/// declared.
pub fn gc_type_table_internal(input: &TypeTableInput) -> (r: Result<TypeTable, TableError>)
    ensures
        r is Err <==> input.entries@.len() > 256,
        r matches Err(e) ==> e == TableError::TooMany,
        r matches Ok(t) ==> {
            &&& t.rows@.len() == input.entries@.len()
            &&& forall|i: int|
                0 <= i < t.rows@.len() ==> (#[trigger] t.rows@[i]).ty@ == input.entries@[i].ty@
                    && t.rows@[i].id == i && t.rows@[i].drop_pass == pass_of(input.entries@[i])
            &&& forall|i: int, j: int|
                0 <= i < j < t.drop_passes@.len() ==> #[trigger] t.drop_passes@[i]
                    < #[trigger] t.drop_passes@[j]
            &&& forall|p: u8| #[trigger]
                t.drop_passes@.contains(p) <==> declares(input.entries@, p)
        },
{
    let count: usize = input.entries.len();
    if count > 256 {
        return Err(TableError::TooMany);
    }
    let mut rows: Vec<TypeRow> = Vec::with_capacity(count);
    let mut i: usize = 0;
    while i < count
        invariant
            i <= count,
            count == input.entries@.len(),
            count <= 256,
            rows@.len() == i,
            forall|k: int|
                0 <= k < i ==> (#[trigger] rows@[k]).ty@ == input.entries@[k].ty@ && rows@[k].id == k
                    && rows@[k].drop_pass == pass_of(input.entries@[k]),
        decreases count - i,
    {
        let pass: u8 = match input.entries[i].drop_pass {
            Some(p) => p,
            None => 0,
        };
        rows.push(TypeRow { ty: input.entries[i].ty.clone(), id: i as u8, drop_pass: pass });
        i = i + 1;
    }
    let drop_passes: Vec<u8> = declared_passes(&input.entries);
    Ok(TypeTable { rows, drop_passes })
}

/// The drop passes of the declared types, in ascending order and each of them once.
fn declared_passes(list: &Vec<TypeTableEntry>) -> (r: Vec<u8>)
    ensures
        forall|i: int, j: int| 0 <= i < j < r@.len() ==> #[trigger] r@[i] < #[trigger] r@[j],
        forall|p: u8| #[trigger] r@.contains(p) <==> declares(list@, p),
{
    let mut out: Vec<u8> = Vec::new();
    let mut pass: u16 = 0;
    while pass < 256
        invariant
            pass <= 256,
            forall|i: int, j: int| 0 <= i < j < out@.len() ==> #[trigger] out@[i] < #[trigger] out@[j],
            forall|p: u8| #[trigger] out@.contains(p) <==> p < pass && declares(list@, p),
        decreases 256 - pass,
    {
        let p: u8 = pass as u8;
        let mut used: bool = false;
        let mut k: usize = 0;
        while k < list.len() && !used
            invariant
                k <= list@.len(),
                !used ==> forall|j: int| 0 <= j < k ==> pass_of(#[trigger] list@[j]) != p,
                used ==> declares(list@, p),
            decreases list@.len() - k,
        {
            let own: u8 = match list[k].drop_pass {
                Some(x) => x,
                None => 0,
            };
            if own == p {
                assert(pass_of(list@[k as int]) == p);
                used = true;
            }
            k = k + 1;
        }
        let ghost before = out@;
        if used {
            out.push(p);
        }
        proof {
            crate::lemmas::lemma_push_members(before, p);
            assert forall|i: int| 0 <= i < before.len() implies #[trigger] before[i] < pass by {
                assert(before.contains(before[i]));
            }
        }
        pass = pass + 1;
    }
    out
}

} // verus!
