//! The list of versions shown where buildpacks that must share one version
//! do not.

use crate::text::{chars_of, join_lines, lemma_join_concat, newline, push_all, string_of};
use vstd::prelude::*;

verus! {

/// One line of the list: a bullet, a space and the version.
pub open spec fn bullet_line(version: Seq<char>) -> Seq<char> {
    seq!['•', ' '] + version
}

/// The lines of the list, one for each version, in order.
pub open spec fn bullet_lines(versions: Seq<String>) -> Seq<Seq<char>> {
    Seq::new(versions.len(), |i: int| bullet_line(versions[i]@))
}

/// Lists versions, one to a line, each after a bullet. The lines come in
/// the order of `versions`; there is no line break after the last.
pub fn list_versions(versions: &Vec<String>) -> (list: String)
    ensures
        list@ == join_lines(bullet_lines(versions@)),
{
    let ghost lines = bullet_lines(versions@);
    let mut out: Vec<char> = Vec::new();
    let mut i: usize = 0;
    assert(lines.take(0) =~= Seq::<Seq<char>>::empty());
    while i < versions.len()
        invariant
            i <= versions.len(),
            lines == bullet_lines(versions@),
            out@ == join_lines(lines.take(i as int)),
        decreases versions.len() - i,
    {
        let ghost done = lines.take(i as int);
        if i > 0 {
            out.push('\n');
        }
        out.push('•');
        out.push(' ');
        let version = chars_of(versions[i].as_str());
        push_all(&mut out, &version);
        proof {
            let line = lines[i as int];
            assert(lines.take(i + 1) =~= done + seq![line]);
            if i > 0 {
                lemma_join_concat(done, seq![line]);
                assert(out@ =~= join_lines(done) + newline() + line);
            } else {
                assert(done + seq![line] =~= seq![line]);
                assert(out@ =~= line);
            }
        }
        i += 1;
    }
    assert(lines.take(i as int) =~= lines);
    string_of(&out)
}

} // verus!
