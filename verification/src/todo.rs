//! Generate todo list for each package.
use crate::extract::{extract_info_list, extracts_view, Extract, ExtractView};
use crate::reader::extract_info;
use vstd::prelude::*;

verus! {

/// The todo list of the first `k` libraries `xs`: a line `- [ ] name` for each.
pub open spec fn todo_text(xs: Seq<ExtractView>, k: int) -> Seq<char>
    decreases k,
{
    if k <= 0 {
        Seq::empty()
    } else {
        todo_text(xs, k - 1) + "- [ ] "@ + xs[k - 1].package + "\n"@
    }
}

/// Generates a todo list from extract info, for Github markdown:
/// a line `- [ ] name` for each library. The text must be an extract info
/// document (a caller tests that with `read_extract_info` and stops where it is
/// not).
pub fn todo_from_extract_info(extract_info_text: &str) -> (res: Result<String, String>)
    requires
        extract_info(extract_info_text@) is Some,
    ensures
        res matches Ok(s) && s@ == todo_text(
            extract_info(extract_info_text@)->Some_0,
            extract_info(extract_info_text@)->Some_0.len() as int,
        ),
{
    let ghost xs = extract_info(extract_info_text@)->Some_0;
    let list = match extract_info_list(extract_info_text) {
        Ok(list) => list,
        Err(e) => {
            return Err(e);
        },
    };
    assert(extracts_view(list@) == xs);
    let mut res = String::new();
    let n = list.len();
    let mut i: usize = 0;
    assert(res@ =~= todo_text(xs, 0));
    while i < n
        invariant
            n == list@.len(),
            xs == extracts_view(list@),
            i <= n,
            res@ == todo_text(xs, i as int),
        decreases n - i,
    {
        let package: &Extract = &list[i];
        res.append("- [ ] ");
        res.append(package.package.as_str());
        res.append("\n");
        i = i + 1;
        assert(xs[i - 1] == package@);
        assert(res@ =~= todo_text(xs, i as int));
    }
    Ok(res)
}

/// The todo list of the first `k` libraries does not depend on those after.
proof fn lemma_todo_text_prefix(xs: Seq<ExtractView>, x: ExtractView, k: int)
    requires
        0 <= k <= xs.len(),
    ensures
        todo_text(xs.push(x), k) == todo_text(xs, k),
    decreases k,
{
    if k > 0 {
        lemma_todo_text_prefix(xs, x, k - 1);
        assert(xs.push(x)[k - 1] == xs[k - 1]);
    }
}

/// The todo list of no library is empty.
pub proof fn todo_of_no_library()
    ensures
        todo_text(Seq::<ExtractView>::empty(), 0) == Seq::<char>::empty(),
{
}

/// One more library adds exactly one line to the todo list, `- [ ] name`, after
/// the lines of the others: so the list has one line for each library, in
/// order.
pub proof fn todo_of_one_more_library(xs: Seq<ExtractView>, x: ExtractView)
    ensures
        todo_text(xs.push(x), xs.len() + 1int) == todo_text(xs, xs.len() as int) + "- [ ] "@ + x.package
            + "\n"@,
{
    lemma_todo_text_prefix(xs, x, xs.len() as int);
    assert(xs.push(x)[xs.len() as int] == x);
}

} // verus!
