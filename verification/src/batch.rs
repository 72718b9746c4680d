//! The batch writer: splits a large set of fixed-arity value tuples
//! into chunks that respect the driver's bound-parameter ceiling, and
//! renders each chunk as one multi-row INSERT whose placeholders are
//! renumbered from 1.

use vstd::prelude::*;
use vstd::string::StringExecFns;

use crate::entity::BookTag;
use crate::query::{bind_values_view, BindValue, BindValueView};
use crate::sqltext::{placeholder, push_placeholder};

verus! {

/// The concatenation of all chunks, in order.
pub open spec fn concat_chunks<T>(chunks: Seq<Seq<T>>) -> Seq<T>
    decreases chunks.len(),
{
    if chunks.len() == 0 {
        Seq::empty()
    } else {
        concat_chunks(chunks.drop_last()) + chunks.last()
    }
}

pub open spec fn chunks_view<T>(chunks: Seq<Vec<T>>) -> Seq<Seq<T>> {
    chunks.map_values(|c: Vec<T>| c@)
}

/// Split tuples into chunks of at most `max_params / arity` each, so
/// that no chunk binds more than `max_params` parameters. Every chunk
/// is nonempty, all but the last are full, and the chunks concatenate
/// back to the input: nothing is lost, duplicated or reordered.
pub fn chunk_tuples<T>(values: Vec<T>, max_params: usize, arity: usize) -> (chunks: Vec<Vec<T>>)
    requires
        1 <= arity <= max_params,
    ensures
        ({
            let cs = max_params as int / arity as int;
            &&& concat_chunks(chunks_view(chunks@)) == values@
            &&& forall|k: int| 0 <= k < chunks@.len() ==> 0 < (#[trigger] chunks@[k])@.len() <= cs
            &&& forall|k: int| 0 <= k < chunks@.len() - 1 ==> (#[trigger] chunks@[k])@.len() == cs
            &&& forall|k: int|
                0 <= k < chunks@.len() ==> (#[trigger] chunks@[k])@.len() * arity <= max_params
        }),
{
    let cs = max_params / arity;
    proof {
        assert(cs >= 1 && cs * arity <= max_params) by (nonlinear_arith)
            requires
                arity >= 1,
                cs == max_params as int / arity as int,
                max_params >= arity,
        ;
    }
    let ghost all = values@;
    let mut chunks: Vec<Vec<T>> = Vec::new();
    let mut rest = values;
    proof {
        assert(concat_chunks(chunks_view(chunks@)) + rest@ =~= all);
    }
    while rest.len() > cs
        invariant
            1 <= cs,
            cs * arity <= max_params,
            cs == max_params as int / arity as int,
            concat_chunks(chunks_view(chunks@)) + rest@ == all,
            forall|k: int| 0 <= k < chunks@.len() ==> (#[trigger] chunks@[k])@.len() == cs,
        decreases rest@.len(),
    {
        let tail = rest.split_off(cs);
        let ghost old_chunks = chunks_view(chunks@);
        chunks.push(rest);
        rest = tail;
        proof {
            assert(chunks_view(chunks@) =~= old_chunks.push(chunks@.last()@));
            assert(chunks_view(chunks@).drop_last() =~= old_chunks);
            assert(concat_chunks(chunks_view(chunks@)) + rest@ =~= all);
        }
    }
    if rest.len() > 0 {
        let ghost old_chunks = chunks_view(chunks@);
        chunks.push(rest);
        proof {
            assert(chunks_view(chunks@) =~= old_chunks.push(chunks@.last()@));
            assert(chunks_view(chunks@).drop_last() =~= old_chunks);
            assert(concat_chunks(chunks_view(chunks@)) =~= all);
            assert forall|k: int| 0 <= k < chunks@.len() implies 0 < (
            #[trigger] chunks@[k])@.len() <= cs by {
                if k < chunks@.len() - 1 {
                    assert(chunks_view(chunks@)[k] == old_chunks[k]);
                }
            }
            assert forall|k: int|
                0 <= k < chunks@.len() implies (#[trigger] chunks@[k])@.len() * arity
                <= max_params by {
                assert(chunks@[k]@.len() * arity <= cs * arity) by (nonlinear_arith)
                    requires
                        arity >= 0,
                        chunks@[k]@.len() <= cs,
                ;
            }
            assert forall|k: int|
                0 <= k < chunks@.len() - 1 implies (#[trigger] chunks@[k])@.len() == cs by {
                assert(chunks_view(chunks@)[k] == old_chunks[k]);
            }
        }
        chunks
    } else {
        proof {
            assert(rest@.len() == 0);
            assert(concat_chunks(chunks_view(chunks@)) =~= all);
            assert forall|k: int|
                0 <= k < chunks@.len() implies (#[trigger] chunks@[k])@.len() * arity
                <= max_params by {
                assert(chunks@[k]@.len() * arity <= cs * arity) by (nonlinear_arith)
                    requires
                        arity >= 0,
                        chunks@[k]@.len() <= cs,
                ;
            }
        }
        chunks
    }
}

/// More parameters than the ceiling cannot fit in one chunk: the split
/// then produces more than one statement, each within the ceiling, and
/// their union is the input, each tuple exactly once.
pub proof fn lemma_chunking_splits(chunks: Seq<Seq<(u64, u64)>>, values: Seq<(u64, u64)>, max_params: usize, arity: usize)
    requires
        1 <= arity <= max_params,
        concat_chunks(chunks) == values,
        forall|k: int|
            0 <= k < chunks.len() ==> 0 < (#[trigger] chunks[k]).len() <= max_params as int
                / arity as int,
        values.len() * arity > max_params,
    ensures
        chunks.len() > 1,
{
    let cs = max_params as int / arity as int;
    assert(cs * arity <= max_params) by (nonlinear_arith)
        requires
            arity >= 1,
            cs == max_params as int / arity as int,
            max_params >= arity,
    ;
    if chunks.len() == 0 {
        assert(values.len() == 0);
    } else if chunks.len() == 1 {
        assert(concat_chunks(chunks.drop_last()).len() == 0) by {
            assert(chunks.drop_last().len() == 0);
        }
        assert(values =~= chunks[0]);
        assert(values.len() <= cs);
        assert(values.len() * arity <= cs * arity) by (nonlinear_arith)
            requires
                arity >= 1,
                values.len() <= cs,
        ;
    }
}

/// The tuples clause of one chunk's multi-row INSERT: `count` groups
/// of `arity` placeholders, numbered from 1 without gaps or reuse:
/// `($1, $2),($3, $4)` for two pairs.
pub open spec fn spec_values_clause(count: nat, arity: nat) -> Seq<char>
    decreases count,
{
    if count == 0 {
        Seq::empty()
    } else if count == 1 {
        spec_group(count, arity)
    } else {
        spec_values_clause((count - 1) as nat, arity) + seq![','] + spec_group(count, arity)
    }
}

/// The `i`-th group (1-based): `($((i-1)*arity+1), ..., $(i*arity))`.
pub open spec fn spec_group(i: nat, arity: nat) -> Seq<char> {
    seq!['('] + spec_group_params(((i - 1) * arity) as nat, arity) + seq![')']
}

/// `arity` placeholders starting after `base`, separated by `, `.
pub open spec fn spec_group_params(base: nat, arity: nat) -> Seq<char>
    decreases arity,
{
    if arity == 0 {
        Seq::empty()
    } else if arity == 1 {
        placeholder(base + 1)
    } else {
        spec_group_params(base, (arity - 1) as nat) + seq![',', ' '] + placeholder(base + arity)
    }
}

/// Render the tuples clause for one chunk of `count` tuples.
pub fn values_clause(count: usize, arity: usize) -> (r: String)
    requires
        count * arity <= usize::MAX,
    ensures
        r@ == spec_values_clause(count as nat, arity as nat),
{
    let mut s = String::new();
    proof {
        assert(s@ =~= spec_values_clause(0, arity as nat));
    }
    let mut i: usize = 0;
    while i < count
        invariant
            0 <= i <= count,
            count * arity <= usize::MAX,
            s@ == spec_values_clause(i as nat, arity as nat),
        decreases count - i,
    {
        if i > 0 {
            s.append(",");
            proof {
                reveal_strlit(",");
                assert(","@ =~= seq![',']);
            }
        }
        let ghost before_group = s@;
        s.append("(");
        proof {
            assert(i * arity <= count * arity && (i + 1) * arity <= count * arity && i * arity
                + arity == (i + 1) * arity) by (nonlinear_arith)
                requires
                    0 <= i < count,
                    arity >= 0,
            ;
            reveal_strlit("(");
            assert("("@ =~= seq!['(']);
        }
        let base: usize = i * arity;
        let mut j: usize = 0;
        while j < arity
            invariant
                0 <= j <= arity,
                base == i * arity,
                base + arity <= usize::MAX,
                s@ == before_group + seq!['('] + spec_group_params(base as nat, j as nat),
            decreases arity - j,
        {
            if j > 0 {
                s.append(", ");
                proof {
                    reveal_strlit(", ");
                    assert(", "@ =~= seq![',', ' ']);
                }
            }
            push_placeholder(&mut s, (base + j + 1) as u64);
            proof {
                assert(s@ =~= before_group + seq!['('] + spec_group_params(
                    base as nat,
                    (j + 1) as nat,
                ));
            }
            j = j + 1;
        }
        s.append(")");
        proof {
            reveal_strlit(")");
            assert(")"@ =~= seq![')']);
            assert(((i + 1 - 1) * arity) as nat == base as nat);
            assert(s@ =~= before_group + spec_group((i + 1) as nat, arity as nat));
            assert(s@ =~= spec_values_clause((i + 1) as nat, arity as nat));
        }
        i = i + 1;
    }
    s
}

/// The bind values of one chunk of tag tuples: kind and name for each
/// tag, in tuple order.
pub open spec fn spec_tag_values(tags: Seq<(Seq<char>, Seq<char>)>) -> Seq<BindValueView>
    decreases tags.len(),
{
    if tags.len() == 0 {
        Seq::empty()
    } else {
        spec_tag_values(tags.drop_last()) + seq![
            BindValueView::Str(tags.last().0),
            BindValueView::Str(tags.last().1),
        ]
    }
}

/// Flatten a chunk of tags into its ordered bind values.
pub fn tag_bind_values(tags: &Vec<BookTag>) -> (r: Vec<BindValue>)
    ensures
        bind_values_view(r@) == spec_tag_values(crate::entity::tags_view(tags@)),
{
    let ghost tsv = crate::entity::tags_view(tags@);
    let mut out: Vec<BindValue> = Vec::new();
    let mut i: usize = 0;
    while i < tags.len()
        invariant
            0 <= i <= tags@.len(),
            tsv == crate::entity::tags_view(tags@),
            tsv.len() == tags@.len(),
            bind_values_view(out@) =~= spec_tag_values(tsv.take(i as int)),
        decreases tags@.len() - i,
    {
        let t = &tags[i];
        proof {
            assert(tsv.take(i + 1).drop_last() =~= tsv.take(i as int));
            assert(tsv.take(i + 1).last() == tsv[i as int]);
            assert(tsv[i as int] == tags@[i as int]@);
        }
        out.push(BindValue::Str(t.kind().to_owned()));
        out.push(BindValue::Str(t.name().to_owned()));
        proof {
            assert(bind_values_view(out@) =~= spec_tag_values(tsv.take(i + 1)));
        }
        i = i + 1;
    }
    proof {
        assert(tsv.take(tsv.len() as int) =~= tsv);
    }
    out
}

/// The bind values of one chunk of join-row tuples.
pub open spec fn spec_ref_values(refs: Seq<(u64, u64)>) -> Seq<BindValueView>
    decreases refs.len(),
{
    if refs.len() == 0 {
        Seq::empty()
    } else {
        spec_ref_values(refs.drop_last()) + seq![
            BindValueView::U64(refs.last().0),
            BindValueView::U64(refs.last().1),
        ]
    }
}

/// Flatten a chunk of (book id, tag id) pairs into its bind values.
pub fn ref_bind_values(refs: &Vec<(u64, u64)>) -> (r: Vec<BindValue>)
    ensures
        bind_values_view(r@) == spec_ref_values(refs@),
{
    let mut out: Vec<BindValue> = Vec::new();
    let mut i: usize = 0;
    while i < refs.len()
        invariant
            0 <= i <= refs@.len(),
            bind_values_view(out@) =~= spec_ref_values(refs@.take(i as int)),
        decreases refs@.len() - i,
    {
        let (a, b) = refs[i];
        proof {
            assert(refs@.take(i + 1).drop_last() =~= refs@.take(i as int));
            assert(refs@.take(i + 1).last() == refs@[i as int]);
        }
        out.push(BindValue::U64(a));
        out.push(BindValue::U64(b));
        proof {
            assert(bind_values_view(out@) =~= spec_ref_values(refs@.take(i + 1)));
        }
        i = i + 1;
    }
    proof {
        assert(refs@.take(refs@.len() as int) =~= refs@);
    }
    out
}

/// The insert-or-ignore statement for one chunk of `count` tags:
/// conflicts on the structural (kind, name) identity are ignored, and
/// only newly inserted rows return their surrogate id.
pub fn insert_book_tags_sql(count: usize) -> (r: String)
    requires
        count * 2 <= usize::MAX,
    ensures
        r@ == "INSERT INTO book_tags(kind, name) VALUES "@ + spec_values_clause(count as nat, 2)
            + " ON CONFLICT (kind, name) DO NOTHING RETURNING id"@,
{
    let mut s = String::new();
    s.append("INSERT INTO book_tags(kind, name) VALUES ");
    let clause = values_clause(count, 2);
    s.append(clause.as_str());
    s.append(" ON CONFLICT (kind, name) DO NOTHING RETURNING id");
    proof {
        assert(s@ =~= "INSERT INTO book_tags(kind, name) VALUES "@ + spec_values_clause(
            count as nat,
            2,
        ) + " ON CONFLICT (kind, name) DO NOTHING RETURNING id"@);
    }
    s
}

/// The plain insert statement for one chunk of `count` join rows.
pub fn insert_tag_refs_sql(count: usize) -> (r: String)
    requires
        count * 2 <= usize::MAX,
    ensures
        r@ == "INSERT INTO books_tag_ref(book_id, book_tag_id) VALUES "@ + spec_values_clause(
            count as nat,
            2,
        ),
{
    let mut s = String::new();
    s.append("INSERT INTO books_tag_ref(book_id, book_tag_id) VALUES ");
    let clause = values_clause(count, 2);
    s.append(clause.as_str());
    proof {
        assert(s@ =~= "INSERT INTO books_tag_ref(book_id, book_tag_id) VALUES "@
            + spec_values_clause(count as nat, 2));
    }
    s
}

} // verus!
