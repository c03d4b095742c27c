//! Function and type records from Rust and TypeScript syntax trees.
use crate::extract::{clip_doc, Extraction, ExtractionView, FnRecord, FnRecordView, TypeRecord, TypeRecordView};
use crate::normalized::{Shape, ShapeView, function, function_spec};
use crate::sitter::grammar_accepted;
use crate::syntax::{Grammar, SyntaxNode, child_by_field, field_child, lemma_field_from_child, syntax_tree};
use crate::text::{
    byte_prefix, byte_prefix_exec, collapse_ws, collapse_ws_exec, extend_chars, from_chars, join,
    lemma_join_push, replace_char, replace_char_exec, starts_with, starts_with_exec, str_eq, to_chars,
    trim, trim_end_matches, trim_end_matches_exec, trim_exec, truncate, slice_chars, lines, lines_of,
    trim_start, trim_start_exec, trim_start_matches, trim_start_matches_exec,
};
use vstd::prelude::*;

verus! {

/// `ctx` with `part` appended, `" / "` between parts.
pub open spec fn extend_ctx(ctx: Seq<char>, part: Option<Seq<char>>) -> Seq<char> {
    match part {
        None => ctx,
        Some(p) => if ctx.len() == 0 {
            p
        } else {
            ctx + " / "@ + p
        },
    }
}

/// 1-based line of a 0-based row, wrapping at `u32`.
pub open spec fn line_no(row: usize) -> u32 {
    if (row as u32) == u32::MAX {
        0
    } else {
        ((row as u32) + 1) as u32
    }
}

pub open spec fn char_seqs(v: Seq<Vec<char>>) -> Seq<Seq<char>> {
    v.map_values(|x: Vec<char>| x@)
}

/// The text of `c` before its `body` child (all of it when there is none).
pub open spec fn head_text(c: SyntaxNode) -> Seq<char> {
    match field_child(c, "body"@) {
        Some(b) => byte_prefix(
            c.text@,
            if b.start_byte >= c.start_byte {
                b.start_byte - c.start_byte
            } else {
                0
            },
        ),
        None => c.text@,
    }
}

// ---------------------------------------------------------------- Rust

/// What an enclosing Rust item adds to the context of the items inside it.
pub open spec fn rust_part(n: SyntaxNode) -> Option<Seq<char>> {
    if n.kind@ == "impl_item"@ {
        let ty = match field_child(n, "type"@) {
            Some(t) => collapse_ws(t.text@),
            None => "?"@,
        };
        match field_child(n, "trait"@) {
            Some(tr) => Some("impl "@ + collapse_ws(tr.text@) + " for "@ + ty),
            None => Some("impl "@ + ty),
        }
    } else if n.kind@ == "trait_item"@ {
        match field_child(n, "name"@) {
            Some(nm) => Some("trait "@ + nm.text@),
            None => None,
        }
    } else if n.kind@ == "mod_item"@ {
        match field_child(n, "name"@) {
            Some(nm) => Some("mod "@ + nm.text@),
            None => None,
        }
    } else {
        None
    }
}

/// The `///` lines right above sibling `j` (attributes between them are passed
/// over), in source order, each trimmed.
pub open spec fn rust_doc_parts(ch: Seq<SyntaxNode>, j: int) -> Seq<Seq<char>>
    decreases j,
{
    if j <= 0 || j > ch.len() {
        seq![]
    } else {
        let s = ch[j - 1];
        if !s.named {
            rust_doc_parts(ch, j - 1)
        } else if s.kind@ == "line_comment"@ {
            if starts_with(s.text@, "///"@) {
                rust_doc_parts(ch, j - 1).push(trim(s.text@.skip(3)))
            } else {
                seq![]
            }
        } else if s.kind@ == "attribute_item"@ {
            rust_doc_parts(ch, j - 1)
        } else {
            seq![]
        }
    }
}

pub open spec fn rust_doc(ch: Seq<SyntaxNode>, j: int) -> Seq<char> {
    truncate(join(rust_doc_parts(ch, j), " "@), 300)
}

pub open spec fn is_rust_type_kind(k: Seq<char>) -> bool {
    ||| k == "struct_item"@
    ||| k == "enum_item"@
    ||| k == "trait_item"@
    ||| k == "type_item"@
    ||| k == "union_item"@
}

pub type Records = (Seq<FnRecordView>, Seq<TypeRecordView>);

pub open spec fn no_records() -> Records {
    (seq![], seq![])
}

pub open spec fn add_records(a: Records, b: Records) -> Records {
    (a.0 + b.0, a.1 + b.1)
}

/// The record sibling `i` gives, with `ctx` the context of its parent's items.
pub open spec fn rust_here(ch: Seq<SyntaxNode>, i: int, ctx: Seq<char>, file: Seq<char>) -> Records {
    let c = ch[i];
    if c.kind@ == "function_item"@ {
        match field_child(c, "name"@) {
            Some(nm) => {
                let sig = collapse_ws(head_text(c));
                (
                    seq![
                        FnRecordView {
                            name: nm.text@,
                            context: ctx,
                            sig,
                            doc: rust_doc(ch, i),
                            body: c.text@,
                            file,
                            start: line_no(c.start_row),
                            end: line_no(c.end_row),
                            public: starts_with(sig, "pub"@),
                            shape: None,
                        },
                    ],
                    seq![],
                )
            },
            None => no_records(),
        }
    } else if is_rust_type_kind(c.kind@) {
        match field_child(c, "name"@) {
            Some(nm) => (
                seq![],
                seq![
                    TypeRecordView {
                        name: nm.text@,
                        kind: trim_end_matches(c.kind@, "_item"@),
                        doc: rust_doc(ch, i),
                        file,
                        start: line_no(c.start_row),
                        end: line_no(c.end_row),
                        public: starts_with(c.text@, "pub"@),
                    },
                ],
            ),
            None => no_records(),
        }
    } else {
        no_records()
    }
}

/// Records below `n` in tree order, each item before the items inside it; `ctx` is
/// the context of `n`'s children.
pub open spec fn rust_walk(n: SyntaxNode, ctx: Seq<char>, file: Seq<char>) -> Records
    decreases n, n.children@.len() + 1,
{
    rust_list(n, n.children@.len() as int, ctx, file)
}

/// `rust_walk` over the first `k` children of `n`.
pub open spec fn rust_list(n: SyntaxNode, k: int, ctx: Seq<char>, file: Seq<char>) -> Records
    decreases n, k,
{
    if k <= 0 || k > n.children@.len() {
        no_records()
    } else {
        let c = n.children@[k - 1];
        add_records(
            add_records(rust_list(n, k - 1, ctx, file), rust_here(n.children@, k - 1, ctx, file)),
            rust_walk(c, extend_ctx(ctx, rust_part(c)), file),
        )
    }
}

/// `c` is a node strictly below `n`.
pub open spec fn below(c: SyntaxNode, n: SyntaxNode) -> bool
    decreases n, n.children@.len() + 1,
{
    below_list(c, n, n.children@.len() as int)
}

/// `c` is one of the first `k` children of `n` or below one of them.
pub open spec fn below_list(c: SyntaxNode, n: SyntaxNode, k: int) -> bool
    decreases n, k,
{
    if k <= 0 || k > n.children@.len() {
        false
    } else {
        below_list(c, n, k - 1) || n.children@[k - 1] == c || below(c, n.children@[k - 1])
    }
}

/// `r` records the Rust function item `c` of `file`: its name, its whole text as the
/// body, and the 1-based lines on which the item starts and ends.
pub open spec fn records_rust_fn(r: FnRecordView, c: SyntaxNode, file: Seq<char>) -> bool {
    &&& c.kind@ == "function_item"@
    &&& field_child(c, "name"@) matches Some(nm) && r.name == nm.text@
    &&& r.body == c.text@
    &&& r.file == file
    &&& r.start == line_no(c.start_row)
    &&& r.end == line_no(c.end_row)
}

/// `t` records the Rust type item `c` of `file`: its name and the 1-based lines on
/// which the item starts and ends.
pub open spec fn records_rust_type(t: TypeRecordView, c: SyntaxNode, file: Seq<char>) -> bool {
    &&& is_rust_type_kind(c.kind@)
    &&& field_child(c, "name"@) matches Some(nm) && t.name == nm.text@
    &&& t.file == file
    &&& t.start == line_no(c.start_row)
    &&& t.end == line_no(c.end_row)
}

proof fn lemma_rust_here_records(ch: Seq<SyntaxNode>, i: int, ctx: Seq<char>, file: Seq<char>)
    requires
        0 <= i < ch.len(),
    ensures
        forall|x: int|
            0 <= x < rust_here(ch, i, ctx, file).0.len() ==> records_rust_fn(
                #[trigger] rust_here(ch, i, ctx, file).0[x],
                ch[i],
                file,
            ),
        forall|x: int|
            0 <= x < rust_here(ch, i, ctx, file).1.len() ==> records_rust_type(
                #[trigger] rust_here(ch, i, ctx, file).1[x],
                ch[i],
                file,
            ),
{
}

/// Some function item among the first `k` children of `n` or below them is what `r`
/// records.
pub open spec fn fn_source_in(r: FnRecordView, n: SyntaxNode, k: int, file: Seq<char>) -> bool {
    exists|d: SyntaxNode| #[trigger] below_list(d, n, k) && records_rust_fn(r, d, file)
}

/// Some type item among the first `k` children of `n` or below them is what `t`
/// records.
pub open spec fn type_source_in(t: TypeRecordView, n: SyntaxNode, k: int, file: Seq<char>) -> bool {
    exists|d: SyntaxNode| #[trigger] below_list(d, n, k) && records_rust_type(t, d, file)
}

proof fn lemma_rust_list_records(n: SyntaxNode, k: int, ctx: Seq<char>, file: Seq<char>)
    ensures
        forall|x: int|
            0 <= x < rust_list(n, k, ctx, file).0.len() ==> fn_source_in(
                #[trigger] rust_list(n, k, ctx, file).0[x],
                n,
                k,
                file,
            ),
        forall|x: int|
            0 <= x < rust_list(n, k, ctx, file).1.len() ==> type_source_in(
                #[trigger] rust_list(n, k, ctx, file).1[x],
                n,
                k,
                file,
            ),
    decreases n, k,
{
    if 0 < k <= n.children@.len() {
        let c = n.children@[k - 1];
        let cctx = extend_ctx(ctx, rust_part(c));
        let m = c.children@.len() as int;
        lemma_rust_list_records(n, k - 1, ctx, file);
        lemma_rust_here_records(n.children@, k - 1, ctx, file);
        lemma_rust_list_records(c, m, cctx, file);
        let a = rust_list(n, k - 1, ctx, file);
        let h = rust_here(n.children@, k - 1, ctx, file);
        let w = rust_walk(c, cctx, file);
        assert(w == rust_list(c, m, cctx, file));
        let all = rust_list(n, k, ctx, file);
        assert(all.0 == a.0 + h.0 + w.0);
        assert(all.1 == a.1 + h.1 + w.1);
        assert forall|x: int| 0 <= x < all.0.len() implies fn_source_in(#[trigger] all.0[x], n, k, file) by {
            if x < a.0.len() {
                assert(all.0[x] == a.0[x]);
                assert(fn_source_in(a.0[x], n, k - 1, file));
                let d = choose|d: SyntaxNode| #[trigger] below_list(d, n, k - 1) && records_rust_fn(a.0[x], d, file);
                assert(below_list(d, n, k));
            } else if x < a.0.len() + h.0.len() {
                assert(all.0[x] == h.0[x - a.0.len()]);
                assert(records_rust_fn(h.0[x - a.0.len()], c, file));
                assert(below_list(c, n, k));
            } else {
                let y = x - a.0.len() - h.0.len();
                assert(all.0[x] == w.0[y]);
                assert(fn_source_in(w.0[y], c, m, file));
                let d = choose|d: SyntaxNode| #[trigger] below_list(d, c, m) && records_rust_fn(w.0[y], d, file);
                assert(below(d, c));
                assert(below_list(d, n, k));
            }
        }
        assert forall|x: int| 0 <= x < all.1.len() implies type_source_in(#[trigger] all.1[x], n, k, file) by {
            if x < a.1.len() {
                assert(all.1[x] == a.1[x]);
                assert(type_source_in(a.1[x], n, k - 1, file));
                let d = choose|d: SyntaxNode| #[trigger] below_list(d, n, k - 1) && records_rust_type(a.1[x], d, file);
                assert(below_list(d, n, k));
            } else if x < a.1.len() + h.1.len() {
                assert(all.1[x] == h.1[x - a.1.len()]);
                assert(records_rust_type(h.1[x - a.1.len()], c, file));
                assert(below_list(c, n, k));
            } else {
                let y = x - a.1.len() - h.1.len();
                assert(all.1[x] == w.1[y]);
                assert(type_source_in(w.1[y], c, m, file));
                let d = choose|d: SyntaxNode| #[trigger] below_list(d, c, m) && records_rust_type(w.1[y], d, file);
                assert(below(d, c));
                assert(below_list(d, n, k));
            }
        }
    }
}

/// Every Rust function record comes from a function item in the tree, and spans it:
/// its body is the item's whole text and its lines run from the line the item
/// starts on to the line it ends on. Every type record likewise spans its item.
pub proof fn law_rust_records_span_items(root: SyntaxNode, ctx: Seq<char>, file: Seq<char>, x: int)
    ensures
        0 <= x < rust_walk(root, ctx, file).0.len() ==> exists|c: SyntaxNode|
            below(c, root) && records_rust_fn(rust_walk(root, ctx, file).0[x], c, file),
        0 <= x < rust_walk(root, ctx, file).1.len() ==> exists|c: SyntaxNode|
            below(c, root) && records_rust_type(rust_walk(root, ctx, file).1[x], c, file),
{
    let m = root.children@.len() as int;
    lemma_rust_list_records(root, m, ctx, file);
    let w = rust_walk(root, ctx, file);
    assert(w == rust_list(root, m, ctx, file));
    if 0 <= x < w.0.len() {
        assert(fn_source_in(w.0[x], root, m, file));
        let d = choose|d: SyntaxNode| #[trigger] below_list(d, root, m) && records_rust_fn(w.0[x], d, file);
        assert(below(d, root));
    }
    if 0 <= x < w.1.len() {
        assert(type_source_in(w.1[x], root, m, file));
        let d = choose|d: SyntaxNode| #[trigger] below_list(d, root, m) && records_rust_type(w.1[x], d, file);
        assert(below(d, root));
    }
}

// ---------------------------------------------------------------- exec

pub open spec fn appended(old_ex: ExtractionView, ex: ExtractionView, r: Records) -> bool {
    ex.fns == old_ex.fns + r.0 && ex.types == old_ex.types + r.1
}

fn extend_ctx_exec(ctx: &Vec<char>, part: Option<Vec<char>>) -> (r: Vec<char>)
    ensures
        r@ == extend_ctx(ctx@, match part {
            Some(p) => Some(p@),
            None => None,
        }),
{
    match part {
        None => slice_chars(ctx.as_slice(), 0, ctx.len()),
        Some(p) => {
            if ctx.len() == 0 {
                p
            } else {
                let mut r = slice_chars(ctx.as_slice(), 0, ctx.len());
                let sep = to_chars(" / ");
                extend_chars(&mut r, sep.as_slice());
                extend_chars(&mut r, p.as_slice());
                r
            }
        },
    }
}

fn cat(a: &str, b: &[char]) -> (r: Vec<char>)
    ensures
        r@ == a@ + b@,
{
    let mut v = to_chars(a);
    extend_chars(&mut v, b);
    v
}

fn rust_part_exec(n: &SyntaxNode) -> (r: Option<Vec<char>>)
    ensures
        match rust_part(*n) {
            Some(p) => r matches Some(v) && v@ == p,
            None => r is None,
        },
{
    let k = n.kind.as_str();
    if str_eq(k, "impl_item") {
        let ty = match child_by_field(n, "type") {
            Some(t) => collapse_ws_exec(to_chars(t.text.as_str()).as_slice()),
            None => to_chars("?"),
        };
        match child_by_field(n, "trait") {
            Some(tr) => {
                let mut v = cat("impl ", collapse_ws_exec(to_chars(tr.text.as_str()).as_slice()).as_slice());
                let f = cat(" for ", ty.as_slice());
                extend_chars(&mut v, f.as_slice());
                assert(v@ =~= "impl "@ + collapse_ws(tr.text@) + " for "@ + ty@);
                Some(v)
            },
            None => Some(cat("impl ", ty.as_slice())),
        }
    } else if str_eq(k, "trait_item") {
        match child_by_field(n, "name") {
            Some(nm) => Some(cat("trait ", to_chars(nm.text.as_str()).as_slice())),
            None => None,
        }
    } else if str_eq(k, "mod_item") {
        match child_by_field(n, "name") {
            Some(nm) => Some(cat("mod ", to_chars(nm.text.as_str()).as_slice())),
            None => None,
        }
    } else {
        None
    }
}

fn rust_doc_parts_exec(ch: &Vec<SyntaxNode>, j: usize) -> (r: Vec<Vec<char>>)
    requires
        j <= ch@.len(),
    ensures
        char_seqs(r@) == rust_doc_parts(ch@, j as int),
    decreases j,
{
    if j == 0 {
        let r: Vec<Vec<char>> = Vec::new();
        assert(char_seqs(r@) =~= Seq::<Seq<char>>::empty());
        return r;
    }
    let s = &ch[j - 1];
    if !s.named {
        rust_doc_parts_exec(ch, j - 1)
    } else if str_eq(s.kind.as_str(), "line_comment") {
        let t = to_chars(s.text.as_str());
        let slashes = to_chars("///");
        proof {
            reveal_strlit("///");
        }
        if starts_with_exec(t.as_slice(), slashes.as_slice()) {
            let mut r = rust_doc_parts_exec(ch, j - 1);
            let rest = slice_chars(t.as_slice(), 3, t.len());
            assert(rest@ =~= s.text@.skip(3));
            let part = trim_exec(rest.as_slice());
            let ghost before = char_seqs(r@);
            r.push(part);
            assert(char_seqs(r@) =~= before.push(part@));
            r
        } else {
            let r: Vec<Vec<char>> = Vec::new();
            assert(char_seqs(r@) =~= Seq::<Seq<char>>::empty());
            r
        }
    } else if str_eq(s.kind.as_str(), "attribute_item") {
        rust_doc_parts_exec(ch, j - 1)
    } else {
        let r: Vec<Vec<char>> = Vec::new();
        assert(char_seqs(r@) =~= Seq::<Seq<char>>::empty());
        r
    }
}

/// `parts.join(sep)`.
fn join_chars(parts: &Vec<Vec<char>>, sep: &str) -> (r: Vec<char>)
    ensures
        r@ == join(char_seqs(parts@), sep@),
{
    let mut r: Vec<char> = Vec::new();
    let mut i: usize = 0;
    let s = to_chars(sep);
    while i < parts.len()
        invariant
            i <= parts@.len(),
            s@ == sep@,
            r@ == join(char_seqs(parts@).take(i as int), sep@),
        decreases parts@.len() - i,
    {
        proof {
            lemma_join_push(char_seqs(parts@).take(i as int), sep@, char_seqs(parts@)[i as int]);
            assert(char_seqs(parts@).take(i + 1) =~= char_seqs(parts@).take(i as int).push(
                char_seqs(parts@)[i as int],
            ));
        }
        if i > 0 {
            extend_chars(&mut r, s.as_slice());
        }
        extend_chars(&mut r, parts[i].as_slice());
        i += 1;
    }
    assert(char_seqs(parts@).take(parts@.len() as int) =~= char_seqs(parts@));
    r
}

fn rust_doc_exec(ch: &Vec<SyntaxNode>, j: usize) -> (r: String)
    requires
        j <= ch@.len(),
    ensures
        r@ == rust_doc(ch@, j as int),
{
    let parts = rust_doc_parts_exec(ch, j);
    let joined = join_chars(&parts, " ");
    clip_doc(from_chars(joined.as_slice()))
}

pub fn line_no_exec(row: usize) -> (r: u32)
    ensures
        r == line_no(row),
{
    #[verifier::truncate]
    let r0 = row as u32;
    if r0 == u32::MAX {
        0
    } else {
        r0 + 1
    }
}

fn head_text_exec(c: &SyntaxNode) -> (r: Vec<char>)
    ensures
        r@ == head_text(*c),
{
    let t = to_chars(c.text.as_str());
    match child_by_field(c, "body") {
        Some(b) => {
            let n = if b.start_byte >= c.start_byte {
                b.start_byte - c.start_byte
            } else {
                0
            };
            byte_prefix_exec(t.as_slice(), n)
        },
        None => t,
    }
}

fn push_fn(ex: &mut Extraction, r: FnRecord)
    ensures
        final(ex)@.fns == old(ex)@.fns.push(r@),
        final(ex)@.types == old(ex)@.types,
{
    ex.fns.push(r);
    assert(ex@.fns =~= old(ex)@.fns.push(r@));
}

fn push_type(ex: &mut Extraction, r: TypeRecord)
    ensures
        final(ex)@.types == old(ex)@.types.push(r@),
        final(ex)@.fns == old(ex)@.fns,
{
    ex.types.push(r);
    assert(ex@.types =~= old(ex)@.types.push(r@));
}

fn is_rust_type_kind_exec(k: &str) -> (r: bool)
    ensures
        r == is_rust_type_kind(k@),
{
    str_eq(k, "struct_item") || str_eq(k, "enum_item") || str_eq(k, "trait_item") || str_eq(k, "type_item")
        || str_eq(k, "union_item")
}

fn rust_here_exec(ch: &Vec<SyntaxNode>, i: usize, ctx: &Vec<char>, file: &str, ex: &mut Extraction)
    requires
        i < ch@.len(),
    ensures
        appended(old(ex)@, final(ex)@, rust_here(ch@, i as int, ctx@, file@)),
{
    let c = &ch[i];
    if str_eq(c.kind.as_str(), "function_item") {
        match child_by_field(c, "name") {
            Some(nm) => {
                let sig = collapse_ws_exec(head_text_exec(c).as_slice());
                let public = starts_with_exec(sig.as_slice(), to_chars("pub").as_slice());
                let r = FnRecord {
                    name: nm.text.clone(),
                    context: from_chars(ctx.as_slice()),
                    sig: from_chars(sig.as_slice()),
                    doc: rust_doc_exec(ch, i),
                    body: c.text.clone(),
                    file: file.to_owned(),
                    start: line_no_exec(c.start_row),
                    end: line_no_exec(c.end_row),
                    public,
                    shape: None,
                };
                push_fn(ex, r);
                assert(ex@.fns =~= old(ex)@.fns + rust_here(ch@, i as int, ctx@, file@).0);
                assert(ex@.types =~= old(ex)@.types + rust_here(ch@, i as int, ctx@, file@).1);
            },
            None => {
                assert(ex@.fns =~= old(ex)@.fns + rust_here(ch@, i as int, ctx@, file@).0);
                assert(ex@.types =~= old(ex)@.types + rust_here(ch@, i as int, ctx@, file@).1);
            },
        }
    } else if is_rust_type_kind_exec(c.kind.as_str()) {
        match child_by_field(c, "name") {
            Some(nm) => {
                proof {
                    reveal_strlit("_item");
                }
                let kind = trim_end_matches_exec(to_chars(c.kind.as_str()).as_slice(), to_chars("_item").as_slice());
                let r = TypeRecord {
                    name: nm.text.clone(),
                    kind: from_chars(kind.as_slice()),
                    doc: rust_doc_exec(ch, i),
                    file: file.to_owned(),
                    start: line_no_exec(c.start_row),
                    end: line_no_exec(c.end_row),
                    public: starts_with_exec(to_chars(c.text.as_str()).as_slice(), to_chars("pub").as_slice()),
                };
                push_type(ex, r);
                assert(ex@.fns =~= old(ex)@.fns + rust_here(ch@, i as int, ctx@, file@).0);
                assert(ex@.types =~= old(ex)@.types + rust_here(ch@, i as int, ctx@, file@).1);
            },
            None => {
                assert(ex@.fns =~= old(ex)@.fns + rust_here(ch@, i as int, ctx@, file@).0);
                assert(ex@.types =~= old(ex)@.types + rust_here(ch@, i as int, ctx@, file@).1);
            },
        }
    } else {
        assert(ex@.fns =~= old(ex)@.fns + rust_here(ch@, i as int, ctx@, file@).0);
        assert(ex@.types =~= old(ex)@.types + rust_here(ch@, i as int, ctx@, file@).1);
    }
}

fn rust_walk_exec(n: &SyntaxNode, ctx: &Vec<char>, file: &str, ex: &mut Extraction)
    ensures
        appended(old(ex)@, final(ex)@, rust_walk(*n, ctx@, file@)),
    decreases n, n.children@.len() + 1,
{
    rust_list_exec(n, n.children.len(), ctx, file, ex);
}

fn rust_list_exec(n: &SyntaxNode, k: usize, ctx: &Vec<char>, file: &str, ex: &mut Extraction)
    requires
        k <= n.children@.len(),
    ensures
        appended(old(ex)@, final(ex)@, rust_list(*n, k as int, ctx@, file@)),
    decreases n, k,
{
    let ghost e0 = ex@;
    let mut i: usize = 0;
    while i < k
        invariant
            k <= n.children@.len(),
            i <= k,
            e0 == old(ex)@,
            appended(e0, ex@, rust_list(*n, i as int, ctx@, file@)),
        decreases k - i,
    {
        rust_here_exec(&n.children, i, ctx, file, ex);
        let c = &n.children[i];
        let inner = extend_ctx_exec(ctx, rust_part_exec(c));
        rust_walk_exec(c, &inner, file, ex);
        assert(ex@.fns =~= e0.fns + rust_list(*n, i + 1, ctx@, file@).0);
        assert(ex@.types =~= e0.types + rust_list(*n, i + 1, ctx@, file@).1);
        i += 1;
    }
}

/// Appends the functions and types of a Rust syntax tree, in tree order (see
/// `rust_walk`).
pub fn walk_rust(root: &SyntaxNode, file: &str, ex: &mut Extraction)
    ensures
        appended(old(ex)@, final(ex)@, rust_walk(*root, extend_ctx(seq![], rust_part(*root)), file@)),
{
    let empty: Vec<char> = Vec::new();
    let ctx = extend_ctx_exec(&empty, rust_part_exec(root));
    rust_walk_exec(root, &ctx, file, ex);
}


// ---------------------------------------------------------- TypeScript

/// What an enclosing class or namespace adds to the context of the items inside it.
pub open spec fn ts_part(n: SyntaxNode) -> Option<Seq<char>> {
    if n.kind@ == "class_declaration"@ || n.kind@ == "abstract_class_declaration"@ {
        match field_child(n, "name"@) {
            Some(nm) => Some("class "@ + nm.text@),
            None => None,
        }
    } else if n.kind@ == "internal_module"@ || n.kind@ == "module"@ {
        match field_child(n, "name"@) {
            Some(nm) => Some("namespace "@ + nm.text@),
            None => None,
        }
    } else {
        None
    }
}

/// A comment line without its markers and surrounding space.
pub open spec fn clean_line(l: Seq<char>) -> Seq<char> {
    trim(
        trim_start_matches(
            trim_start_matches(trim_start_matches(trim_start_matches(trim(l), "/**"@), "*/"@), "//"@),
            "*"@,
        ),
    )
}

/// The cleaned lines of `ls` that are not empty, in order.
pub open spec fn cleaned_lines(ls: Seq<Seq<char>>) -> Seq<Seq<char>>
    decreases ls.len(),
{
    if ls.len() == 0 {
        seq![]
    } else {
        let r = cleaned_lines(ls.drop_last());
        let c = clean_line(ls.last());
        if c.len() > 0 {
            r.push(c)
        } else {
            r
        }
    }
}

pub open spec fn comment_doc(t: Seq<char>) -> Seq<char> {
    truncate(join(cleaned_lines(lines_of(t)), " "@), 300)
}

/// The doc comment right above sibling `j` (decorators between are passed over).
pub open spec fn ts_doc(ch: Seq<SyntaxNode>, j: int) -> Seq<char>
    decreases j,
{
    if j <= 0 || j > ch.len() {
        seq![]
    } else {
        let s = ch[j - 1];
        if !s.named {
            ts_doc(ch, j - 1)
        } else if s.kind@ == "comment"@ {
            if starts_with(s.text@, "/**"@) || starts_with(s.text@, "//"@) {
                comment_doc(s.text@)
            } else {
                seq![]
            }
        } else if s.kind@ == "decorator"@ {
            ts_doc(ch, j - 1)
        } else {
            seq![]
        }
    }
}

/// Wrappers whose documentation belongs to the declaration inside them.
pub open spec fn anchor_kind(k: Seq<char>) -> bool {
    k == "export_statement"@ || k == "lexical_declaration"@ || k == "variable_declaration"@
}

/// Whether the items below `c` are exported, given that the items beside `c` are
/// when `e` holds.
pub open spec fn child_exported(c: SyntaxNode, e: bool) -> bool {
    if c.kind@ == "export_statement"@ {
        true
    } else if c.kind@ == "program"@ {
        false
    } else {
        e
    }
}

/// The text of `c` before `body` (all of it when there is none).
pub open spec fn sig_text(c: SyntaxNode, body: Option<SyntaxNode>) -> Seq<char> {
    match body {
        Some(b) => byte_prefix(
            c.text@,
            if b.start_byte >= c.start_byte {
                b.start_byte - c.start_byte
            } else {
                0
            },
        ),
        None => c.text@,
    }
}

pub open spec fn wraps_callable(callee: Seq<char>) -> bool {
    ||| callee == "useCallback"@
    ||| callee == "React.useCallback"@
    ||| callee == "memo"@
    ||| callee == "React.memo"@
    ||| callee == "forwardRef"@
    ||| callee == "React.forwardRef"@
}

pub open spec fn first_arg_ok(a: SyntaxNode) -> bool {
    a.named && a.kind@ != "comment"@
}

/// The first named child of `n` that is not a comment.
pub open spec fn first_arg(n: SyntaxNode) -> Option<SyntaxNode> {
    first_arg_from(n, 0)
}

pub open spec fn first_arg_from(n: SyntaxNode, i: int) -> Option<SyntaxNode>
    decreases n.children@.len() - i,
{
    if i < 0 || i >= n.children@.len() {
        None
    } else if first_arg_ok(n.children@[i]) {
        Some(n.children@[i])
    } else {
        first_arg_from(n, i + 1)
    }
}

pub proof fn lemma_first_arg_child(n: SyntaxNode, i: int)
    ensures
        first_arg_from(n, i) matches Some(c) ==> exists|j: int| 0 <= j < n.children@.len() && c == n.children@[j],
    decreases n.children@.len() - i,
{
    if 0 <= i < n.children@.len() && !first_arg_ok(n.children@[i]) {
        lemma_first_arg_child(n, i + 1);
    }
}

/// The callable a value names: an arrow function or function expression, possibly
/// wrapped as the first argument of a memoizing call.
pub open spec fn ts_callable(v: SyntaxNode) -> Option<SyntaxNode>
    decreases v,
{
    if v.kind@ == "arrow_function"@ || v.kind@ == "function_expression"@ {
        Some(v)
    } else if v.kind@ == "call_expression"@ {
        match field_child(v, "function"@) {
            None => None,
            Some(f) => if !wraps_callable(f.text@) {
                None
            } else {
                match field_child(v, "arguments"@) {
                    None => None,
                    Some(args) => match first_arg(args) {
                        None => None,
                        Some(a) => {
                            proof {
                                lemma_field_from_child(v, "arguments"@, 0);
                                lemma_first_arg_child(args, 0);
                                let j = choose|j: int| 0 <= j < v.children@.len() && args == v.children@[j];
                                let l = choose|l: int| 0 <= l < args.children@.len() && a == args.children@[l];
                                assert(decreases_to!(v => v.children@[j].children@[l]));
                            }
                            ts_callable(a)
                        },
                    },
                }
            },
        }
    } else {
        None
    }
}

/// The normalized shape of callable `c`, when the analysis gives one.
pub open spec fn shape_of(c: SyntaxNode) -> Option<ShapeView> {
    match function_spec(c) {
        Some(r) => Some(ShapeView { tokens: r.0, leaves: r.1 as usize }),
        None => None,
    }
}

pub open spec fn ts_fn_view(
    c: SyntaxNode,
    name: SyntaxNode,
    callable: SyntaxNode,
    ctx: Seq<char>,
    doc: Seq<char>,
    file: Seq<char>,
    public: bool,
) -> FnRecordView {
    let body = field_child(callable, "body"@);
    FnRecordView {
        name: name.text@,
        context: ctx,
        sig: collapse_ws(sig_text(c, body)),
        doc,
        body: c.text@,
        file,
        start: line_no(c.start_row),
        end: line_no(c.end_row),
        public,
        shape: shape_of(callable),
    }
}

pub open spec fn is_private(c: SyntaxNode, name: SyntaxNode) -> bool {
    starts_with(trim_start(c.text@), "private"@) || starts_with(name.text@, "#"@)
}

pub open spec fn ts_type_kind(k: Seq<char>) -> bool {
    ||| k == "interface_declaration"@
    ||| k == "type_alias_declaration"@
    ||| k == "enum_declaration"@
    ||| k == "class_declaration"@
    ||| k == "abstract_class_declaration"@
}

pub open spec fn ts_name_kind(k: Seq<char>) -> bool {
    k == "identifier"@ || k == "property_identifier"@ || k == "private_property_identifier"@
}

/// The record child `c` gives: `ctx` its context, `exported` whether it is exported,
/// `doc` the doc comment of its outermost wrapper.
pub open spec fn ts_here(c: SyntaxNode, ctx: Seq<char>, exported: bool, doc: Seq<char>, file: Seq<char>) -> Records {
    let k = c.kind@;
    if k == "function_declaration"@ || k == "generator_function_declaration"@ {
        match field_child(c, "name"@) {
            Some(nm) => (seq![ts_fn_view(c, nm, c, ctx, doc, file, exported)], seq![]),
            None => no_records(),
        }
    } else if k == "method_definition"@ {
        match field_child(c, "name"@) {
            Some(nm) => (
                seq![ts_fn_view(c, nm, c, ctx, doc, file, !is_private(c, nm))],
                seq![],
            ),
            None => no_records(),
        }
    } else if k == "variable_declarator"@ || k == "pair"@ || k == "public_field_definition"@ {
        let nf = if k == "pair"@ {
            "key"@
        } else {
            "name"@
        };
        match (field_child(c, nf), field_child(c, "value"@)) {
            (Some(nm), Some(value)) => if ts_name_kind(nm.kind@) {
                match ts_callable(value) {
                    Some(callable) => (
                        seq![
                            ts_fn_view(
                                c,
                                nm,
                                callable,
                                ctx,
                                doc,
                                file,
                                !is_private(c, nm) && exported,
                            ),
                        ],
                        seq![],
                    ),
                    None => no_records(),
                }
            } else {
                no_records()
            },
            _ => no_records(),
        }
    } else if ts_type_kind(k) {
        match field_child(c, "name"@) {
            Some(nm) => (
                seq![],
                seq![
                    TypeRecordView {
                        name: nm.text@,
                        kind: replace_char(trim_end_matches(k, "_declaration"@), '_', ' '),
                        doc,
                        file,
                        start: line_no(c.start_row),
                        end: line_no(c.end_row),
                        public: exported,
                    },
                ],
            ),
            None => no_records(),
        }
    } else {
        no_records()
    }
}

/// The doc comment that belongs to child `i` of `n`, whose own is `ndoc`.
pub open spec fn child_doc(n: SyntaxNode, i: int, ndoc: Seq<char>) -> Seq<char> {
    if anchor_kind(n.kind@) {
        ndoc
    } else {
        ts_doc(n.children@, i)
    }
}

/// Records below `n` in tree order; `ctx` is the context of `n`'s children, `exp`
/// whether they are exported, `ndoc` the doc comment that belongs to `n`.
pub open spec fn ts_walk(n: SyntaxNode, ctx: Seq<char>, exp: bool, ndoc: Seq<char>, file: Seq<char>) -> Records
    decreases n, n.children@.len() + 1,
{
    ts_list(n, n.children@.len() as int, ctx, exp, ndoc, file)
}

pub open spec fn ts_list(n: SyntaxNode, k: int, ctx: Seq<char>, exp: bool, ndoc: Seq<char>, file: Seq<char>) -> Records
    decreases n, k,
{
    if k <= 0 || k > n.children@.len() {
        no_records()
    } else {
        let c = n.children@[k - 1];
        let d = child_doc(n, k - 1, ndoc);
        add_records(
            add_records(ts_list(n, k - 1, ctx, exp, ndoc, file), ts_here(c, ctx, exp, d, file)),
            ts_walk(c, extend_ctx(ctx, ts_part(c)), child_exported(c, exp), d, file),
        )
    }
}


/// `r` records node `c` of `file`: its name is a child's text, its body is the node's
/// whole text, and its lines run from the line the node starts on to the line it
/// ends on.
pub open spec fn records_ts_fn(r: FnRecordView, c: SyntaxNode, file: Seq<char>) -> bool {
    &&& r.body == c.text@
    &&& r.file == file
    &&& r.start == line_no(c.start_row)
    &&& r.end == line_no(c.end_row)
    &&& exists|i: int| 0 <= i < c.children@.len() && r.name == #[trigger] c.children@[i].text@
}

/// `t` records the type declaration `c` of `file` over the lines `c` spans.
pub open spec fn records_ts_type(t: TypeRecordView, c: SyntaxNode, file: Seq<char>) -> bool {
    &&& ts_type_kind(c.kind@)
    &&& t.file == file
    &&& t.start == line_no(c.start_row)
    &&& t.end == line_no(c.end_row)
}

pub open spec fn ts_fn_source_in(r: FnRecordView, n: SyntaxNode, k: int, file: Seq<char>) -> bool {
    exists|d: SyntaxNode| #[trigger] below_list(d, n, k) && records_ts_fn(r, d, file)
}

pub open spec fn ts_type_source_in(t: TypeRecordView, n: SyntaxNode, k: int, file: Seq<char>) -> bool {
    exists|d: SyntaxNode| #[trigger] below_list(d, n, k) && records_ts_type(t, d, file)
}

proof fn lemma_ts_here_records(c: SyntaxNode, ctx: Seq<char>, exp: bool, doc: Seq<char>, file: Seq<char>)
    ensures
        forall|x: int| 0 <= x < ts_here(c, ctx, exp, doc, file).0.len() ==> records_ts_fn(
            #[trigger] ts_here(c, ctx, exp, doc, file).0[x],
            c,
            file,
        ),
        forall|x: int| 0 <= x < ts_here(c, ctx, exp, doc, file).1.len() ==> records_ts_type(
            #[trigger] ts_here(c, ctx, exp, doc, file).1[x],
            c,
            file,
        ),
{
    let k = c.kind@;
    let h = ts_here(c, ctx, exp, doc, file);
    let nf = if k == "pair"@ { "key"@ } else { "name"@ };
    lemma_field_from_child(c, "name"@, 0);
    lemma_field_from_child(c, nf, 0);
    if h.0.len() > 0 {
        let nm = if k == "function_declaration"@ || k == "generator_function_declaration"@ || k == "method_definition"@ {
            field_child(c, "name"@)->0
        } else {
            field_child(c, nf)->0
        };
        let i = choose|i: int| 0 <= i < c.children@.len() && nm == c.children@[i];
        assert(h.0[0].name == c.children@[i].text@);
        assert(records_ts_fn(h.0[0], c, file));
    }
}

proof fn lemma_ts_list_records(n: SyntaxNode, k: int, ctx: Seq<char>, exp: bool, ndoc: Seq<char>, file: Seq<char>)
    ensures
        forall|x: int|
            0 <= x < ts_list(n, k, ctx, exp, ndoc, file).0.len() ==> ts_fn_source_in(
                #[trigger] ts_list(n, k, ctx, exp, ndoc, file).0[x],
                n,
                k,
                file,
            ),
        forall|x: int|
            0 <= x < ts_list(n, k, ctx, exp, ndoc, file).1.len() ==> ts_type_source_in(
                #[trigger] ts_list(n, k, ctx, exp, ndoc, file).1[x],
                n,
                k,
                file,
            ),
    decreases n, k,
{
    if 0 < k <= n.children@.len() {
        let c = n.children@[k - 1];
        let d = child_doc(n, k - 1, ndoc);
        let cctx = extend_ctx(ctx, ts_part(c));
        let cexp = child_exported(c, exp);
        let m = c.children@.len() as int;
        lemma_ts_list_records(n, k - 1, ctx, exp, ndoc, file);
        lemma_ts_here_records(c, ctx, exp, d, file);
        lemma_ts_list_records(c, m, cctx, cexp, d, file);
        let a = ts_list(n, k - 1, ctx, exp, ndoc, file);
        let h = ts_here(c, ctx, exp, d, file);
        let w = ts_walk(c, cctx, cexp, d, file);
        assert(w == ts_list(c, m, cctx, cexp, d, file));
        let all = ts_list(n, k, ctx, exp, ndoc, file);
        assert(all.0 == a.0 + h.0 + w.0);
        assert(all.1 == a.1 + h.1 + w.1);
        assert forall|x: int| 0 <= x < all.0.len() implies ts_fn_source_in(#[trigger] all.0[x], n, k, file) by {
            if x < a.0.len() {
                assert(all.0[x] == a.0[x]);
                assert(ts_fn_source_in(a.0[x], n, k - 1, file));
                let e = choose|e: SyntaxNode| #[trigger] below_list(e, n, k - 1) && records_ts_fn(a.0[x], e, file);
                assert(below_list(e, n, k));
            } else if x < a.0.len() + h.0.len() {
                assert(all.0[x] == h.0[x - a.0.len()]);
                assert(records_ts_fn(h.0[x - a.0.len()], c, file));
                assert(below_list(c, n, k));
            } else {
                let y = x - a.0.len() - h.0.len();
                assert(all.0[x] == w.0[y]);
                assert(ts_fn_source_in(w.0[y], c, m, file));
                let e = choose|e: SyntaxNode| #[trigger] below_list(e, c, m) && records_ts_fn(w.0[y], e, file);
                assert(below(e, c));
                assert(below_list(e, n, k));
            }
        }
        assert forall|x: int| 0 <= x < all.1.len() implies ts_type_source_in(#[trigger] all.1[x], n, k, file) by {
            if x < a.1.len() {
                assert(all.1[x] == a.1[x]);
                assert(ts_type_source_in(a.1[x], n, k - 1, file));
                let e = choose|e: SyntaxNode| #[trigger] below_list(e, n, k - 1) && records_ts_type(a.1[x], e, file);
                assert(below_list(e, n, k));
            } else if x < a.1.len() + h.1.len() {
                assert(all.1[x] == h.1[x - a.1.len()]);
                assert(records_ts_type(h.1[x - a.1.len()], c, file));
                assert(below_list(c, n, k));
            } else {
                let y = x - a.1.len() - h.1.len();
                assert(all.1[x] == w.1[y]);
                assert(ts_type_source_in(w.1[y], c, m, file));
                let e = choose|e: SyntaxNode| #[trigger] below_list(e, c, m) && records_ts_type(w.1[y], e, file);
                assert(below(e, c));
                assert(below_list(e, n, k));
            }
        }
    }
}

/// Every TypeScript function record comes from a node in the tree and spans it: its
/// body is the node's whole text, its name one of the node's children, and its lines
/// run from the line the node starts on to the line it ends on. Every type record
/// likewise spans its declaration.
pub proof fn law_ts_records_span_nodes(root: SyntaxNode, ctx: Seq<char>, exp: bool, ndoc: Seq<char>, file: Seq<char>, x: int)
    ensures
        0 <= x < ts_walk(root, ctx, exp, ndoc, file).0.len() ==> exists|c: SyntaxNode|
            below(c, root) && records_ts_fn(ts_walk(root, ctx, exp, ndoc, file).0[x], c, file),
        0 <= x < ts_walk(root, ctx, exp, ndoc, file).1.len() ==> exists|c: SyntaxNode|
            below(c, root) && records_ts_type(ts_walk(root, ctx, exp, ndoc, file).1[x], c, file),
{
    let m = root.children@.len() as int;
    lemma_ts_list_records(root, m, ctx, exp, ndoc, file);
    let w = ts_walk(root, ctx, exp, ndoc, file);
    assert(w == ts_list(root, m, ctx, exp, ndoc, file));
    if 0 <= x < w.0.len() {
        assert(ts_fn_source_in(w.0[x], root, m, file));
        let d = choose|d: SyntaxNode| #[trigger] below_list(d, root, m) && records_ts_fn(w.0[x], d, file);
        assert(below(d, root));
    }
    if 0 <= x < w.1.len() {
        assert(ts_type_source_in(w.1[x], root, m, file));
        let d = choose|d: SyntaxNode| #[trigger] below_list(d, root, m) && records_ts_type(w.1[x], d, file);
        assert(below(d, root));
    }
}

// ------------------------------------------------------- TypeScript exec

fn ts_part_exec(n: &SyntaxNode) -> (r: Option<Vec<char>>)
    ensures
        match ts_part(*n) {
            Some(p) => r matches Some(v) && v@ == p,
            None => r is None,
        },
{
    let k = n.kind.as_str();
    if str_eq(k, "class_declaration") || str_eq(k, "abstract_class_declaration") {
        match child_by_field(n, "name") {
            Some(nm) => Some(cat("class ", to_chars(nm.text.as_str()).as_slice())),
            None => None,
        }
    } else if str_eq(k, "internal_module") || str_eq(k, "module") {
        match child_by_field(n, "name") {
            Some(nm) => Some(cat("namespace ", to_chars(nm.text.as_str()).as_slice())),
            None => None,
        }
    } else {
        None
    }
}

fn clean_line_exec(l: &[char]) -> (r: Vec<char>)
    ensures
        r@ == clean_line(l@),
{
    proof {
        reveal_strlit("/**");
        reveal_strlit("*/");
        reveal_strlit("//");
        reveal_strlit("*");
    }
    let a = trim_exec(l);
    let b = trim_start_matches_exec(a.as_slice(), to_chars("/**").as_slice());
    let c = trim_start_matches_exec(b.as_slice(), to_chars("*/").as_slice());
    let d = trim_start_matches_exec(c.as_slice(), to_chars("//").as_slice());
    let e = trim_start_matches_exec(d.as_slice(), to_chars("*").as_slice());
    trim_exec(e.as_slice())
}

proof fn lemma_deep_chars(v: Vec<char>)
    ensures
        v.deep_view() == v@,
{
    assert(v.deep_view() =~= v@);
}

fn comment_doc_exec(t: &str) -> (r: String)
    ensures
        r@ == comment_doc(t@),
{
    let ls = lines(to_chars(t).as_slice());
    let ghost lv = ls.deep_view();
    let mut parts: Vec<Vec<char>> = Vec::new();
    let mut k: usize = 0;
    assert(lv.take(0) =~= Seq::<Seq<char>>::empty());
    while k < ls.len()
        invariant
            lv == ls.deep_view(),
            k <= ls@.len(),
            char_seqs(parts@) == cleaned_lines(lv.take(k as int)),
        decreases ls@.len() - k,
    {
        proof {
            lemma_deep_chars(ls@[k as int]);
            assert(lv.take(k + 1).drop_last() =~= lv.take(k as int));
            assert(lv[k as int] == ls@[k as int]@);
        }
        let c = clean_line_exec(ls[k].as_slice());
        if c.len() > 0 {
            let ghost before = char_seqs(parts@);
            parts.push(c);
            assert(char_seqs(parts@) =~= before.push(c@));
        }
        k += 1;
    }
    assert(lv.take(ls@.len() as int) =~= lv);
    let joined = join_chars(&parts, " ");
    clip_doc(from_chars(joined.as_slice()))
}

fn ts_doc_exec(ch: &Vec<SyntaxNode>, j: usize) -> (r: String)
    requires
        j <= ch@.len(),
    ensures
        r@ == ts_doc(ch@, j as int),
    decreases j,
{
    if j == 0 {
        return String::new();
    }
    let s = &ch[j - 1];
    if !s.named {
        ts_doc_exec(ch, j - 1)
    } else if str_eq(s.kind.as_str(), "comment") {
        let t = to_chars(s.text.as_str());
        if starts_with_exec(t.as_slice(), to_chars("/**").as_slice()) || starts_with_exec(
            t.as_slice(),
            to_chars("//").as_slice(),
        ) {
            comment_doc_exec(s.text.as_str())
        } else {
            String::new()
        }
    } else if str_eq(s.kind.as_str(), "decorator") {
        ts_doc_exec(ch, j - 1)
    } else {
        String::new()
    }
}

fn sig_text_exec(c: &SyntaxNode, body: Option<&SyntaxNode>) -> (r: Vec<char>)
    ensures
        r@ == sig_text(*c, match body {
            Some(b) => Some(*b),
            None => None,
        }),
{
    let t = to_chars(c.text.as_str());
    match body {
        Some(b) => {
            let n = if b.start_byte >= c.start_byte {
                b.start_byte - c.start_byte
            } else {
                0
            };
            byte_prefix_exec(t.as_slice(), n)
        },
        None => t,
    }
}

fn first_arg_exec(n: &SyntaxNode) -> (r: Option<&SyntaxNode>)
    ensures
        r matches Some(a) ==> first_arg(*n) == Some(*a),
        r is None ==> first_arg(*n) is None,
{
    let mut i: usize = 0;
    while i < n.children.len()
        invariant
            i <= n.children@.len(),
            first_arg(*n) == first_arg_from(*n, i as int),
        decreases n.children@.len() - i,
    {
        let c = &n.children[i];
        if c.named && !str_eq(c.kind.as_str(), "comment") {
            return Some(c);
        }
        i += 1;
    }
    None
}

fn wraps_callable_exec(callee: &str) -> (r: bool)
    ensures
        r == wraps_callable(callee@),
{
    str_eq(callee, "useCallback") || str_eq(callee, "React.useCallback") || str_eq(callee, "memo")
        || str_eq(callee, "React.memo") || str_eq(callee, "forwardRef") || str_eq(callee, "React.forwardRef")
}

/// The callable that value `v` names (see `ts_callable`).
fn ts_callable_exec(v: &SyntaxNode) -> (r: Option<&SyntaxNode>)
    ensures
        r matches Some(c) ==> ts_callable(*v) == Some(*c),
        r is None ==> ts_callable(*v) is None,
    decreases v,
{
    let k = v.kind.as_str();
    if str_eq(k, "arrow_function") || str_eq(k, "function_expression") {
        return Some(v);
    }
    if !str_eq(k, "call_expression") {
        return None;
    }
    let f = match child_by_field(v, "function") {
        Some(f) => f,
        None => {
            return None;
        },
    };
    if !wraps_callable_exec(f.text.as_str()) {
        return None;
    }
    let args = match child_by_field(v, "arguments") {
        Some(a) => a,
        None => {
            return None;
        },
    };
    match first_arg_exec(args) {
        None => None,
        Some(a) => {
            proof {
                lemma_field_from_child(*v, "arguments"@, 0);
                lemma_first_arg_child(*args, 0);
                let j = choose|j: int| 0 <= j < v.children@.len() && *args == v.children@[j];
                let l = choose|l: int| 0 <= l < args.children@.len() && *a == args.children@[l];
                assert(decreases_to!(*v => v.children@[j].children@[l]));
            }
            ts_callable_exec(a)
        },
    }
}

fn is_private_exec(c: &SyntaxNode, name: &SyntaxNode) -> (r: bool)
    ensures
        r == is_private(*c, *name),
{
    let t = trim_start_exec(to_chars(c.text.as_str()).as_slice());
    starts_with_exec(t.as_slice(), to_chars("private").as_slice()) || starts_with_exec(
        to_chars(name.text.as_str()).as_slice(),
        to_chars("#").as_slice(),
    )
}

fn ts_type_kind_exec(k: &str) -> (r: bool)
    ensures
        r == ts_type_kind(k@),
{
    str_eq(k, "interface_declaration") || str_eq(k, "type_alias_declaration") || str_eq(k, "enum_declaration")
        || str_eq(k, "class_declaration") || str_eq(k, "abstract_class_declaration")
}

fn ts_name_kind_exec(k: &str) -> (r: bool)
    ensures
        r == ts_name_kind(k@),
{
    str_eq(k, "identifier") || str_eq(k, "property_identifier") || str_eq(k, "private_property_identifier")
}

fn shape_exec(callable: &SyntaxNode) -> (r: Option<Shape>)
    ensures
        match shape_of(*callable) {
            Some(v) => r matches Some(s) && s@ == v,
            None => r is None,
        },
{
    let s = function(callable);
    proof {
        if s is Some {
            let sp = function_spec(*callable)->0;
            assert(s->0@ == ShapeView { tokens: sp.0, leaves: sp.1 as usize });
        }
    }
    s
}

fn ts_fn_record(
    c: &SyntaxNode,
    name: &SyntaxNode,
    callable: &SyntaxNode,
    ctx: &Vec<char>,
    doc: &Vec<char>,
    file: &str,
    public: bool,
) -> (r: FnRecord)
    ensures
        r@ == ts_fn_view(*c, *name, *callable, ctx@, doc@, file@, public),
{
    let sig = collapse_ws_exec(sig_text_exec(c, child_by_field(callable, "body")).as_slice());
    FnRecord {
        name: name.text.clone(),
        context: from_chars(ctx.as_slice()),
        sig: from_chars(sig.as_slice()),
        doc: from_chars(doc.as_slice()),
        body: c.text.clone(),
        file: file.to_owned(),
        start: line_no_exec(c.start_row),
        end: line_no_exec(c.end_row),
        public,
        shape: shape_exec(callable),
    }
}

fn ts_here_exec(c: &SyntaxNode, ctx: &Vec<char>, exported: bool, doc: &Vec<char>, file: &str, ex: &mut Extraction)
    ensures
        appended(old(ex)@, final(ex)@, ts_here(*c, ctx@, exported, doc@, file@)),
{
    let k = c.kind.as_str();
    let ghost rs = ts_here(*c, ctx@, exported, doc@, file@);
    if str_eq(k, "function_declaration") || str_eq(k, "generator_function_declaration") {
        if let Some(nm) = child_by_field(c, "name") {
            push_fn(ex, ts_fn_record(c, nm, c, ctx, doc, file, exported));
        }
    } else if str_eq(k, "method_definition") {
        if let Some(nm) = child_by_field(c, "name") {
            let public = !is_private_exec(c, nm);
            push_fn(ex, ts_fn_record(c, nm, c, ctx, doc, file, public));
        }
    } else if str_eq(k, "variable_declarator") || str_eq(k, "pair") || str_eq(k, "public_field_definition") {
        let is_pair = str_eq(k, "pair");
        let nm = if is_pair {
            child_by_field(c, "key")
        } else {
            child_by_field(c, "name")
        };
        match (nm, child_by_field(c, "value")) {
            (Some(nm), Some(value)) => {
                if ts_name_kind_exec(nm.kind.as_str()) {
                    if let Some(callable) = ts_callable_exec(value) {
                        let public = !is_private_exec(c, nm) && exported;
                        push_fn(ex, ts_fn_record(c, nm, callable, ctx, doc, file, public));
                    }
                }
            },
            _ => {},
        }
    } else if ts_type_kind_exec(k) {
        if let Some(nm) = child_by_field(c, "name") {
            proof {
                reveal_strlit("_declaration");
            }
            let trimmed = trim_end_matches_exec(to_chars(k).as_slice(), to_chars("_declaration").as_slice());
            let kind = replace_char_exec(trimmed.as_slice(), '_', ' ');
            let r = TypeRecord {
                name: nm.text.clone(),
                kind: from_chars(kind.as_slice()),
                doc: from_chars(doc.as_slice()),
                file: file.to_owned(),
                start: line_no_exec(c.start_row),
                end: line_no_exec(c.end_row),
                public: exported,
            };
            push_type(ex, r);
        }
    }
    assert(ex@.fns =~= old(ex)@.fns + rs.0);
    assert(ex@.types =~= old(ex)@.types + rs.1);
}

fn anchor_kind_exec(k: &str) -> (r: bool)
    ensures
        r == anchor_kind(k@),
{
    str_eq(k, "export_statement") || str_eq(k, "lexical_declaration") || str_eq(k, "variable_declaration")
}

fn child_exported_exec(c: &SyntaxNode, e: bool) -> (r: bool)
    ensures
        r == child_exported(*c, e),
{
    if str_eq(c.kind.as_str(), "export_statement") {
        true
    } else if str_eq(c.kind.as_str(), "program") {
        false
    } else {
        e
    }
}

fn ts_walk_exec(n: &SyntaxNode, ctx: &Vec<char>, exp: bool, ndoc: &Vec<char>, file: &str, ex: &mut Extraction)
    ensures
        appended(old(ex)@, final(ex)@, ts_walk(*n, ctx@, exp, ndoc@, file@)),
    decreases n, n.children@.len() + 1,
{
    ts_list_exec(n, n.children.len(), ctx, exp, ndoc, file, ex);
}

fn ts_list_exec(
    n: &SyntaxNode,
    k: usize,
    ctx: &Vec<char>,
    exp: bool,
    ndoc: &Vec<char>,
    file: &str,
    ex: &mut Extraction,
)
    requires
        k <= n.children@.len(),
    ensures
        appended(old(ex)@, final(ex)@, ts_list(*n, k as int, ctx@, exp, ndoc@, file@)),
    decreases n, k,
{
    let ghost e0 = ex@;
    let anchor = anchor_kind_exec(n.kind.as_str());
    let mut i: usize = 0;
    while i < k
        invariant
            k <= n.children@.len(),
            i <= k,
            e0 == old(ex)@,
            anchor == anchor_kind(n.kind@),
            appended(e0, ex@, ts_list(*n, i as int, ctx@, exp, ndoc@, file@)),
        decreases k - i,
    {
        let c = &n.children[i];
        let d: Vec<char> = if anchor {
            slice_chars(ndoc.as_slice(), 0, ndoc.len())
        } else {
            to_chars(ts_doc_exec(&n.children, i).as_str())
        };
        assert(d@ == child_doc(*n, i as int, ndoc@));
        ts_here_exec(c, ctx, exp, &d, file, ex);
        let inner = extend_ctx_exec(ctx, ts_part_exec(c));
        ts_walk_exec(c, &inner, child_exported_exec(c, exp), &d, file, ex);
        assert(ex@.fns =~= e0.fns + ts_list(*n, i + 1, ctx@, exp, ndoc@, file@).0);
        assert(ex@.types =~= e0.types + ts_list(*n, i + 1, ctx@, exp, ndoc@, file@).1);
        i += 1;
    }
}

/// Appends the functions, methods, callable-valued declarations and types of a
/// TypeScript syntax tree, in tree order (see `ts_walk`).
pub fn walk_ts(root: &SyntaxNode, file: &str, ex: &mut Extraction)
    ensures
        appended(
            old(ex)@,
            final(ex)@,
            ts_walk(*root, extend_ctx(seq![], ts_part(*root)), child_exported(*root, false), seq![], file@),
        ),
{
    let empty: Vec<char> = Vec::new();
    let ctx = extend_ctx_exec(&empty, ts_part_exec(root));
    let exp = child_exported_exec(root, false);
    ts_walk_exec(root, &ctx, exp, &empty, file, ex);
}


// ------------------------------------------------------------- one file

/// How a source file is read.
#[derive(Clone, Copy, PartialEq, Eq, Structural)]
pub enum SourceKind {
    Rust,
    TypeScript,
    Tsx,
    Functor,
}

/// Index of the last `.` before index `k`.
pub open spec fn last_dot(name: Seq<char>, k: int) -> Option<int>
    decreases k,
{
    if k <= 0 || k > name.len() {
        None
    } else if name[k - 1] == '.' {
        Some(k - 1)
    } else {
        last_dot(name, k - 1)
    }
}

/// A file name's extension: what follows its last `.`, unless that `.` starts the
/// name.
pub open spec fn extension(name: Seq<char>) -> Option<Seq<char>> {
    match last_dot(name, name.len() as int) {
        Some(i) => if i > 0 {
            Some(name.skip(i + 1))
        } else {
            None
        },
        None => None,
    }
}

/// How the file named `name` is read; `None` for files that are skipped.
pub open spec fn source_kind_spec(name: Seq<char>) -> Option<SourceKind> {
    if crate::text::ends_with(name, ".d.ts"@) {
        None
    } else {
        match extension(name) {
            Some(e) => if e == "rs"@ {
                Some(SourceKind::Rust)
            } else if e == "ts"@ || e == "mts"@ || e == "cts"@ {
                Some(SourceKind::TypeScript)
            } else if e == "tsx"@ || e == "jsx"@ || e == "js"@ || e == "mjs"@ || e == "cjs"@ {
                Some(SourceKind::Tsx)
            } else if e == "fun"@ {
                Some(SourceKind::Functor)
            } else {
                None
            },
            None => None,
        }
    }
}

fn extension_exec(name: &[char]) -> (r: Option<Vec<char>>)
    ensures
        match extension(name@) {
            Some(e) => r matches Some(v) && v@ == e,
            None => r is None,
        },
{
    let mut k: usize = name.len();
    while k > 0 && name[k - 1] != '.'
        invariant
            k <= name@.len(),
            last_dot(name@, name@.len() as int) == last_dot(name@, k as int),
        decreases k,
    {
        k -= 1;
    }
    if k > 1 {
        let v = slice_chars(name, k, name.len());
        assert(v@ =~= name@.skip(k as int));
        Some(v)
    } else {
        None
    }
}

/// How the file named `name` is read (see `source_kind_spec`).
pub fn source_kind(name: &str) -> (r: Option<SourceKind>)
    ensures
        r == source_kind_spec(name@),
{
    let n = to_chars(name);
    if crate::text::ends_with_exec(n.as_slice(), to_chars(".d.ts").as_slice()) {
        return None;
    }
    match extension_exec(n.as_slice()) {
        Some(e) => {
            let s = from_chars(e.as_slice());
            let x = s.as_str();
            if str_eq(x, "rs") {
                Some(SourceKind::Rust)
            } else if str_eq(x, "ts") || str_eq(x, "mts") || str_eq(x, "cts") {
                Some(SourceKind::TypeScript)
            } else if str_eq(x, "tsx") || str_eq(x, "jsx") || str_eq(x, "js") || str_eq(x, "mjs") || str_eq(x, "cjs") {
                Some(SourceKind::Tsx)
            } else if str_eq(x, "fun") {
                Some(SourceKind::Functor)
            } else {
                None
            }
        },
        None => None,
    }
}

/// `after` is `before` with the records of the TypeScript or TSX tree of `src`, or
/// unchanged where tree-sitter does not accept the grammar.
pub open spec fn ts_source(
    grammar: Grammar,
    src: Seq<char>,
    file: Seq<char>,
    before: ExtractionView,
    after: ExtractionView,
) -> bool {
    if grammar_accepted(grammar) {
        exists|root: SyntaxNode|
            syntax_tree(root, grammar, src) && appended(
                before,
                after,
                ts_walk(root, extend_ctx(seq![], ts_part(root)), child_exported(root, false), seq![], file),
            )
    } else {
        after == before
    }
}

/// Appends the functions and types of one source file: Functor files line by line,
/// the others from their syntax tree. A file the parser declines adds nothing.
pub fn extract_source(kind: SourceKind, src: &str, file: &str, ex: &mut Extraction)
    requires
        kind == SourceKind::Functor ==> src@.len() < u32::MAX,
    ensures
        kind == SourceKind::Functor ==> appended(
            old(ex)@,
            final(ex)@,
            (
                crate::extract::functor_fns(crate::text::lines_of(src@), file@, crate::text::lines_of(src@).len() as int),
                crate::extract::functor_types(crate::text::lines_of(src@), file@, crate::text::lines_of(src@).len() as int),
            ),
        ),
        kind == SourceKind::Rust ==> if grammar_accepted(Grammar::Rust) {
            exists|root: SyntaxNode|
                syntax_tree(root, Grammar::Rust, src@) && appended(
                    old(ex)@,
                    final(ex)@,
                    rust_walk(root, extend_ctx(seq![], rust_part(root)), file@),
                )
        } else {
            final(ex)@ == old(ex)@
        },
        kind == SourceKind::TypeScript ==> ts_source(Grammar::TypeScript, src@, file@, old(ex)@, final(ex)@),
        kind == SourceKind::Tsx ==> ts_source(Grammar::Tsx, src@, file@, old(ex)@, final(ex)@),
{
    match kind {
        SourceKind::Functor => crate::extract::extract_functor(src, file, ex),
        SourceKind::Rust => {
            if let Some(root) = crate::syntax::parse(Grammar::Rust, src) {
                walk_rust(&root, file, ex);
            }
        },
        SourceKind::TypeScript => {
            if let Some(root) = crate::syntax::parse(Grammar::TypeScript, src) {
                walk_ts(&root, file, ex);
            }
        },
        SourceKind::Tsx => {
            if let Some(root) = crate::syntax::parse(Grammar::Tsx, src) {
                walk_ts(&root, file, ex);
            }
        },
    }
}


/// Directories the scan never enters.
pub open spec fn skipped_dir(name: Seq<char>) -> bool {
    ||| name == "node_modules"@
    ||| name == "target"@
    ||| name == "dist"@
    ||| name == "build"@
    ||| name == ".git"@
    ||| name == "vendor"@
}

/// Whether a path component names a directory the scan never enters.
pub fn is_skipped_dir(name: &str) -> (r: bool)
    ensures
        r == skipped_dir(name@),
{
    str_eq(name, "node_modules") || str_eq(name, "target") || str_eq(name, "dist") || str_eq(name, "build")
        || str_eq(name, ".git") || str_eq(name, "vendor")
}


/// `p[a..b]` is a directory of the `/`-separated path `p`: a component that a `/`
/// ends.
pub open spec fn dir_component_at(p: Seq<char>, a: int, b: int) -> bool {
    &&& 0 <= a <= b < p.len()
    &&& p[b] == '/'
    &&& (a == 0 || p[a - 1] == '/')
    &&& forall|j: int| a <= j < b ==> p[j] != '/'
}

/// Some directory of the root-relative path `p` is one the scan never enters.
pub open spec fn in_skipped_dir_spec(p: Seq<char>) -> bool {
    exists|a: int, b: int| dir_component_at(p, a, b) && #[trigger] skipped_dir(p.subrange(a, b))
}

/// Whether a root-relative, `/`-separated file path lies under a directory the scan
/// never enters.
pub fn in_skipped_dir(rel: &str) -> (r: bool)
    ensures
        r == in_skipped_dir_spec(rel@),
{
    let p = to_chars(rel);
    let mut start: usize = 0;
    let mut i: usize = 0;
    while i < p.len()
        invariant
            p@ == rel@,
            start <= i <= p@.len(),
            start == 0 || p@[start - 1] == '/',
            forall|j: int| start <= j < i ==> p@[j] != '/',
            forall|a: int, b: int| dir_component_at(p@, a, b) && b < i ==> !skipped_dir(#[trigger] p@.subrange(a, b)),
        decreases p@.len() - i,
    {
        if p[i] == '/' {
            let name = from_chars(slice_chars(p.as_slice(), start, i).as_slice());
            if is_skipped_dir(name.as_str()) {
                assert(dir_component_at(p@, start as int, i as int));
                assert(name@ == p@.subrange(start as int, i as int));
                return true;
            }
            assert forall|a: int, b: int| dir_component_at(p@, a, b) && b < i + 1 implies !skipped_dir(
                #[trigger] p@.subrange(a, b),
            ) by {
                if b == i {
                    if a < start {
                        assert(p@[start - 1] == '/');
                    } else if a > start {
                        assert(p@[a - 1] == '/');
                    }
                    assert(a == start);
                    assert(name@ =~= p@.subrange(a, b));
                }
            }
            start = i + 1;
        }
        i += 1;
    }
    false
}

} // verus!
