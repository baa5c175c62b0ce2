//! Choosing the editor command: split each candidate on whitespace and
//! take the first that has any words, falling back to `vim`.  Reading the
//! environment and asking the version-control tool happen outside; their
//! answers come in as plain bytes.

use vstd::prelude::*;

use crate::whitespace::{lemma_word_len, word_len, ws_char_len, ws_len_at};

verus! {

/// The whitespace-separated words of `s`, in order, without empties:
/// maximal runs of non-whitespace, with whitespace as the byte-string
/// helpers compute it (Unicode `White_Space` over decoded characters).
pub open spec fn fields_spec(s: Seq<u8>) -> Seq<Seq<u8>>
    decreases s.len(),
{
    if s.len() == 0 {
        Seq::empty()
    } else {
        let k = ws_char_len(s);
        if 1 <= k <= s.len() {
            fields_spec(s.skip(k))
        } else {
            let w0 = word_len(s);
            let w = if 1 <= w0 <= s.len() {
                w0
            } else {
                s.len() as int
            };
            seq![s.take(w)] + fields_spec(s.skip(w))
        }
    }
}

/// Split into whitespace-separated words.
pub fn fields(s: &[u8]) -> (r: Vec<Vec<u8>>)
    ensures
        r@.map_values(|w: Vec<u8>| w@) == fields_spec(s@),
{
    let mut r: Vec<Vec<u8>> = Vec::new();
    let mut pos: usize = 0;
    proof {
        assert(s@.skip(0) =~= s@);
        assert(r@.map_values(|w: Vec<u8>| w@) + fields_spec(s@.skip(0)) =~= fields_spec(s@));
    }
    while pos < s.len()
        invariant
            0 <= pos <= s@.len(),
            r@.map_values(|w: Vec<u8>| w@) + fields_spec(s@.skip(pos as int)) =~= fields_spec(
                s@,
            ),
        decreases s@.len() - pos,
    {
        let ghost rest = s@.skip(pos as int);
        let k = ws_len_at(s, pos);
        if k > 0 {
            // skip one whitespace character
            proof {
                assert(rest.skip(k as int) =~= s@.skip(pos + k));
            }
            pos = pos + k;
        } else {
            // scan the word: advance until a whitespace character begins
            proof {
                lemma_word_len(rest);
            }
            let mut j: usize = pos + 1;
            proof {
                assert(rest.skip(0) =~= rest);
                assert(rest.skip(1) =~= s@.skip(pos + 1));
            }
            while j < s.len() && ws_len_at(s, j) == 0
                invariant
                    pos < j <= s@.len(),
                    pos < s@.len(),
                    rest == s@.skip(pos as int),
                    forall|p: int| 0 <= p < j - pos ==> ws_char_len(#[trigger] rest.skip(p)) == 0,
                decreases s@.len() - j,
            {
                proof {
                    assert(rest.skip(j - pos) =~= s@.skip(j as int));
                    assert(rest.skip(j + 1 - pos) =~= s@.skip(j + 1));
                }
                j = j + 1;
            }
            let ghost w = j - pos;
            proof {
                assert(rest.skip(w) =~= s@.skip(j as int));
                assert(w == word_len(rest)) by {
                    let wl = word_len(rest);
                    if wl < w {
                        assert(ws_char_len(rest.skip(wl)) == 0);
                        assert(ws_char_len(rest.skip(wl)) > 0);
                    }
                    if wl > w {
                        assert(w < rest.len());
                        assert(ws_char_len(rest.skip(w)) > 0);
                        assert(ws_char_len(rest.skip(w)) == 0);
                    }
                }
            }
            let mut word: Vec<u8> = Vec::new();
            word.extend_from_slice(&s[pos..j]);
            proof {
                assert(word@ =~= rest.take(w));
                assert(fields_spec(rest) =~= seq![rest.take(w)] + fields_spec(rest.skip(w)));
                assert(r@.push(word).map_values(|x: Vec<u8>| x@) =~= r@.map_values(
                    |x: Vec<u8>| x@,
                ).push(word@));
            }
            r.push(word);
            pos = j;
        }
    }
    proof {
        assert(s@.skip(pos as int) =~= Seq::<u8>::empty());
        assert(r@.map_values(|w: Vec<u8>| w@) =~= fields_spec(s@));
    }
    r
}

/// `"vim"`
pub open spec fn default_editor() -> Seq<u8> {
    seq![118u8, 105u8, 109u8]
}

/// Which command the four candidates yield: the first whose text splits
/// into at least one word wins, in the fixed priority order; with none,
/// the default editor alone.
pub open spec fn choose_editor_spec(
    visual: Option<Seq<u8>>,
    editor: Option<Seq<u8>>,
    git_editor: Option<Seq<u8>>,
    git_config: Option<Seq<u8>>,
) -> Seq<Seq<u8>> {
    if visual matches Some(v) && fields_spec(v).len() > 0 {
        fields_spec(visual->0)
    } else if editor matches Some(v) && fields_spec(v).len() > 0 {
        fields_spec(editor->0)
    } else if git_editor matches Some(v) && fields_spec(v).len() > 0 {
        fields_spec(git_editor->0)
    } else if git_config matches Some(v) && fields_spec(v).len() > 0 {
        fields_spec(git_config->0)
    } else {
        seq![default_editor()]
    }
}

/// Choose the editor command from the candidate texts, in priority order:
/// the `VISUAL`, `EDITOR` and `GIT_EDITOR` environment values, then the
/// version-control tool's configured editor, then `vim`.
pub fn choose_editor(
    visual: Option<&[u8]>,
    editor: Option<&[u8]>,
    git_editor: Option<&[u8]>,
    git_config: Option<&[u8]>,
) -> (r: Vec<Vec<u8>>)
    ensures
        r@.map_values(|w: Vec<u8>| w@) == choose_editor_spec(
            match visual {
                Some(v) => Some(v@),
                None => None,
            },
            match editor {
                Some(v) => Some(v@),
                None => None,
            },
            match git_editor {
                Some(v) => Some(v@),
                None => None,
            },
            match git_config {
                Some(v) => Some(v@),
                None => None,
            },
        ),
        r@.len() > 0,
{
    if let Some(v) = visual {
        let f = fields(v);
        if f.len() > 0 {
            return f;
        }
    }
    if let Some(v) = editor {
        let f = fields(v);
        if f.len() > 0 {
            return f;
        }
    }
    if let Some(v) = git_editor {
        let f = fields(v);
        if f.len() > 0 {
            return f;
        }
    }
    if let Some(v) = git_config {
        let f = fields(v);
        if f.len() > 0 {
            return f;
        }
    }
    let mut vim: Vec<u8> = Vec::new();
    vim.push(118);
    vim.push(105);
    vim.push(109);
    let mut r: Vec<Vec<u8>> = Vec::new();
    proof {
        assert(vim@ =~= default_editor());
    }
    r.push(vim);
    proof {
        assert(r@.map_values(|w: Vec<u8>| w@) =~= seq![default_editor()]);
    }
    r
}

} // verus!
