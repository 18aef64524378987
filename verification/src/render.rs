//! Renders a file's text as a fenced block and aggregates blocks in file-list
//! order, and parses a block back into its path and content.
//!
//! A block is the fence ```` ``` ````, the path, a newline, the raw content,
//! the closing fence, and a newline. Content is passed through unescaped, so
//! a block can be parsed back only positionally: the first newline ends the
//! path line and the final four characters are the closing fence line.

use vstd::prelude::*;
use vstd::seq_lib::*;
use vstd::string::StringExecFns;
use vstd::string::StrSliceExecFns;

verus! {

/// The three-backtick fence.
pub open spec fn fence() -> Seq<char> {
    seq!['`', '`', '`']
}

/// One rendered block: fence, path, newline, content, fence, newline.
pub open spec fn spec_block(path: Seq<char>, content: Seq<char>) -> Seq<char> {
    fence() + path + seq!['\n'] + content + fence() + seq!['\n']
}

/// Renders one file as a fenced block.
pub fn render_block(path: &str, contents: &str) -> (r: String)
    ensures
        r@ == spec_block(path@, contents@),
{
    proof {
        reveal_strlit("```");
        reveal_strlit("\n");
        reveal_strlit("```\n");
    }
    let mut s = String::from_str("```");
    s.append(path);
    s.append("\n");
    s.append(contents);
    s.append("```\n");
    proof {
        assert(s@ =~= spec_block(path@, contents@));
    }
    s
}

/// The block of one read attempt: the rendered block when the read produced
/// content, nothing when it failed.
pub open spec fn spec_render_item(item: (Seq<char>, Option<Seq<char>>)) -> Seq<char> {
    match item.1 {
        Some(c) => spec_block(item.0, c),
        None => Seq::empty(),
    }
}

/// The aggregate output: the blocks of the readable files, in list order;
/// a failed read contributes nothing.
pub open spec fn spec_render_all(items: Seq<(Seq<char>, Option<Seq<char>>)>) -> Seq<char>
    decreases items.len(),
{
    if items.len() == 0 {
        Seq::empty()
    } else {
        spec_render_all(items.drop_last()) + spec_render_item(items.last())
    }
}

/// Aggregates the read results into one output: each file whose content was
/// read becomes a block, in order; a file whose read failed is skipped.
pub fn render_all(items: &Vec<(String, Option<String>)>) -> (r: String)
    ensures
        r@ == spec_render_all(items.deep_view()),
{
    let mut r = String::new();
    let mut i: usize = 0;
    proof {
        assert(items.deep_view().take(0) =~= Seq::<(Seq<char>, Option<Seq<char>>)>::empty());
        assert(r@ =~= spec_render_all(items.deep_view().take(0)));
    }
    while i < items.len()
        invariant
            i <= items@.len(),
            r@ == spec_render_all(items.deep_view().take(i as int)),
        decreases items@.len() - i,
    {
        proof {
            assert(items.deep_view().take(i + 1).drop_last() =~= items.deep_view().take(i as int));
            assert(items.deep_view().take(i + 1).last() == items@[i as int].deep_view());
        }
        match &items[i].1 {
            Some(c) => {
                let block = render_block(items[i].0.as_str(), c.as_str());
                r.append(block.as_str());
            },
            None => {},
        }
        i += 1;
    }
    proof {
        assert(items.deep_view().take(items@.len() as int) =~= items.deep_view());
    }
    r
}

/// What parsing a block yields: the path on the fence line and the content
/// between the fence lines, or nothing when the text is not shaped like a
/// block. Parsing is positional: the first newline ends the path line, and
/// the last four characters must be the closing fence line.
pub open spec fn spec_parse_block(b: Seq<char>) -> Option<(Seq<char>, Seq<char>)> {
    match b.index_of_first('\n') {
        Some(k) => {
            if 3 <= k && k + 1 <= b.len() - 4 && b.subrange(0, 3) == fence() && b.subrange(
                b.len() - 4,
                b.len() as int,
            ) == fence().push('\n') {
                Some((b.subrange(3, k), b.subrange(k + 1, b.len() - 4)))
            } else {
                None
            }
        },
        None => None,
    }
}

/// Parses a fenced block back into its path and content.
pub fn parse_block(b: &str) -> (r: Option<(String, String)>)
    ensures
        r.deep_view() == spec_parse_block(b@),
{
    let n = b.unicode_len();
    let mut k: usize = 0;
    while k < n && b.get_char(k) != '\n'
        invariant
            k <= n,
            n == b@.len(),
            forall|j: int| 0 <= j < k ==> b@[j] != '\n',
        decreases n - k,
    {
        k += 1;
    }
    proof {
        b@.index_of_first_ensures('\n');
    }
    if k == n {
        proof {
            if b@.index_of_first('\n') is Some {
                let m = b@.index_of_first('\n').unwrap();
                assert(b@[m] != '\n');
            }
        }
        return None;
    }
    proof {
        let m = b@.index_of_first('\n').unwrap();
        assert(b@.contains('\n')) by {
            assert(b@[k as int] == '\n');
        }
        assert(m == k as int) by {
            if m < k as int {
                assert(b@[m] != '\n');
            }
            if m > k as int {
                assert(b@[k as int] != '\n');
            }
        }
    }
    if k < 3 || n < 8 || k + 1 > n - 4 {
        return None;
    }
    if b.get_char(0) != '`' || b.get_char(1) != '`' || b.get_char(2) != '`' {
        proof {
            assert(b@.subrange(0, 3) != fence()) by {
                if b@.subrange(0, 3) == fence() {
                    assert(b@[0] == b@.subrange(0, 3)[0]);
                    assert(b@[1] == b@.subrange(0, 3)[1]);
                    assert(b@[2] == b@.subrange(0, 3)[2]);
                }
            }
        }
        return None;
    }
    if b.get_char(n - 4) != '`' || b.get_char(n - 3) != '`' || b.get_char(n - 2) != '`'
        || b.get_char(n - 1) != '\n' {
        proof {
            let tail = b@.subrange(n - 4, n as int);
            assert(tail != fence().push('\n')) by {
                if tail == fence().push('\n') {
                    assert(b@[n - 4] == tail[0]);
                    assert(b@[n - 3] == tail[1]);
                    assert(b@[n - 2] == tail[2]);
                    assert(b@[n - 1] == tail[3]);
                }
            }
        }
        return None;
    }
    proof {
        assert(b@.subrange(0, 3) =~= fence());
        assert(b@.subrange(n - 4, n as int) =~= fence().push('\n'));
    }
    let path = b.substring_char(3, k);
    let content = b.substring_char(k + 1, n - 4);
    Some((String::from_str(path), String::from_str(content)))
}

/// Round trip: a rendered block parses back to exactly the path and content
/// it was made from, provided the path holds no newline. The content may hold
/// anything, embedded backtick fences included: it is passed through
/// unescaped, and the positional parse recovers it whole.
pub proof fn lemma_block_round_trip(path: Seq<char>, content: Seq<char>)
    requires
        !path.contains('\n'),
    ensures
        spec_parse_block(spec_block(path, content)) == Some((path, content)),
{
    let b = spec_block(path, content);
    let pl = path.len() as int;
    let cl = content.len() as int;
    let k = 3 + pl;
    assert(b.len() == 8 + pl + cl);
    assert(b[k] == '\n');
    assert forall|j: int| 0 <= j < k implies b[j] != '\n' by {
        if j < 3 {
            assert(b[j] == fence()[j]);
        } else {
            assert(b[j] == path[j - 3]);
            if path[j - 3] == '\n' {
                assert(path.contains('\n'));
            }
        }
    }
    b.index_of_first_ensures('\n');
    assert(b.contains('\n')) by {
        assert(b[k] == '\n');
    }
    let m = b.index_of_first('\n').unwrap();
    assert(m == k) by {
        if m < k {
            assert(b[m] != '\n');
        }
        if m > k {
            assert(b[k] != '\n');
        }
    }
    assert(b.subrange(0, 3) =~= fence());
    assert(b.subrange(b.len() - 4, b.len() as int) =~= fence().push('\n'));
    assert(b.subrange(3, k) =~= path);
    assert(b.subrange(k + 1, b.len() - 4) =~= content);
}

} // verus!
