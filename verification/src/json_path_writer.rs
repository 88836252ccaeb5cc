//! Flattened paths for nested JSON documents.
//!
//! A [`JsonPathWriter`] builds the flat key of a nested JSON field: the
//! segments of the path joined by the separator byte 1. With `expand_dots`
//! enabled, dots inside a segment are treated as separators too, so
//! `k8s.node.id` addresses the same field as the nesting `k8s`, `node`,
//! `id`.

use vstd::prelude::*;
use vstd::string::{StringExecFns, StrSliceExecFns};

verus! {

/// Separates the segments of a flattened JSON path.
pub const JSON_PATH_SEGMENT_SEP: u8 = 1;

/// Separates the path from the value in a JSON term's binary form.
pub const JSON_END_OF_PATH: u8 = 0;

/// The segment separator as a character.
pub open spec fn spec_seg_sep() -> char {
    '\u{1}'
}

/// The end-of-path marker as a character.
pub open spec fn spec_end_of_path() -> char {
    '\u{0}'
}

/// A segment with every dot replaced by the segment separator.
pub open spec fn spec_expand(segment: Seq<char>) -> Seq<char> {
    segment.map_values(
        |c: char|
            if c == '.' {
                spec_seg_sep()
            } else {
                c
            },
    )
}

/// What the path writer looks like in contracts.
pub ghost struct JsonPathWriterView {
    /// The characters of the current path.
    pub path: Seq<char>,
    /// For each open segment, the length the path had before it was pushed.
    pub starts: Seq<usize>,
    /// Whether dots inside a segment are expanded into separators.
    pub expand_dots: bool,
}

/// Relies on std's `String::push`: it appends exactly the given character.
#[verifier::external_body]
fn string_push_char(s: &mut String, c: char)
    ensures
        final(s)@ == old(s)@ + seq![c],
{
    s.push(c);
}

/// Builds flattened JSON paths segment by segment.
#[derive(Clone, Debug)]
pub struct JsonPathWriter {
    path: String,
    indices: Vec<usize>,
    expand_dots: bool,
}

impl View for JsonPathWriter {
    type V = JsonPathWriterView;

    closed spec fn view(&self) -> JsonPathWriterView {
        JsonPathWriterView {
            path: self.path@,
            starts: self.indices@,
            expand_dots: self.expand_dots,
        }
    }
}

impl JsonPathWriter {
    /// Well-formedness: every recorded start lies within the path, in
    /// order.
    pub open spec fn wf(self) -> bool {
        &&& forall|i: int| 0 <= i < self@.starts.len() ==> (#[trigger] self@.starts[i]) <= self@.path.len()
        &&& forall|i: int, j: int|
            0 <= i <= j < self@.starts.len() ==> (#[trigger] self@.starts[i]) <= (
            #[trigger] self@.starts[j])
    }

    /// A fresh writer with the given dot-expansion setting.
    pub fn with_expand_dots(expand_dots: bool) -> (r: Self)
        ensures
            r.wf(),
            r@.path == Seq::<char>::empty(),
            r@.starts == Seq::<usize>::empty(),
            r@.expand_dots == expand_dots,
    {
        JsonPathWriter { path: String::new(), indices: Vec::new(), expand_dots }
    }

    /// A fresh writer that keeps dots as they are.
    pub fn new() -> (r: Self)
        ensures
            r.wf(),
            r@.path == Seq::<char>::empty(),
            r@.starts == Seq::<usize>::empty(),
            r@.expand_dots == false,
    {
        Self::with_expand_dots(false)
    }

    /// Changes the dot-expansion setting. Expanding dots lets queries name
    /// nested fields as `k8s.node.id`, at the price of some ambiguity.
    pub fn set_expand_dots(&mut self, expand_dots: bool)
        requires
            old(self).wf(),
        ensures
            final(self).wf(),
            final(self)@.path == old(self)@.path,
            final(self)@.starts == old(self)@.starts,
            final(self)@.expand_dots == expand_dots,
    {
        self.expand_dots = expand_dots;
        proof {
            assert forall|i: int| 0 <= i < self@.starts.len() implies (#[trigger] self@.starts[i])
                <= self@.path.len() by {
                assert(old(self)@.starts[i] <= old(self)@.path.len());
            }
            assert forall|i: int, j: int|
                0 <= i <= j < self@.starts.len() implies (#[trigger] self@.starts[i]) <= (
            #[trigger] self@.starts[j]) by {
                assert(old(self)@.starts[i] <= old(self)@.starts[j]);
            }
        }
    }

    /// Pushes a segment: a separator when the path is not empty of
    /// segments, then the segment, with dots expanded when so configured.
    pub fn push(&mut self, segment: &str)
        requires
            old(self).wf(),
        ensures
            final(self).wf(),
            final(self)@.expand_dots == old(self)@.expand_dots,
            final(self)@.starts == old(self)@.starts.push(old(self)@.path.len() as usize),
            final(self)@.path == old(self)@.path + (if old(self)@.starts.len() > 0 {
                seq![spec_seg_sep()]
            } else {
                Seq::<char>::empty()
            }) + (if old(self)@.expand_dots {
                spec_expand(segment@)
            } else {
                segment@
            }),
    {
        let len_path = self.path.as_str().unicode_len();
        self.indices.push(len_path);
        if self.indices.len() > 1 {
            string_push_char(&mut self.path, '\u{1}');
        }
        let ghost with_sep = self.path@;
        if self.expand_dots {
            let seg_len = segment.unicode_len();
            let mut i: usize = 0;
            proof {
                assert(spec_expand(segment@.take(0)) =~= Seq::<char>::empty());
                assert(self.path@ =~= with_sep + spec_expand(segment@.take(0)));
            }
            while i < seg_len
                invariant
                    i <= segment@.len(),
                    seg_len == segment@.len(),
                    self.path@ == with_sep + spec_expand(segment@.take(i as int)),
                    self.indices@ == old(self).indices@.push(len_path as usize),
                    self.expand_dots == old(self).expand_dots,
                decreases seg_len - i,
            {
                let c = segment.get_char(i);
                let out = if c == '.' {
                    '\u{1}'
                } else {
                    c
                };
                string_push_char(&mut self.path, out);
                proof {
                    assert(spec_expand(segment@.take(i + 1)) =~= spec_expand(
                        segment@.take(i as int),
                    ).push(out));
                    assert(self.path@ =~= with_sep + spec_expand(segment@.take(i + 1)));
                }
                i = i + 1;
            }
            proof {
                assert(segment@.take(segment@.len() as int) =~= segment@);
            }
        } else {
            self.path.append(segment);
        }
        proof {
            assert(self@.path =~= old(self)@.path + (if old(self)@.starts.len() > 0 {
                seq![spec_seg_sep()]
            } else {
                Seq::<char>::empty()
            }) + (if old(self)@.expand_dots {
                spec_expand(segment@)
            } else {
                segment@
            }));
            assert forall|i: int, j: int|
                0 <= i <= j < self@.starts.len() implies (#[trigger] self@.starts[i]) <= (
            #[trigger] self@.starts[j]) by {
                if j < old(self)@.starts.len() {
                    assert(old(self)@.starts[i] <= old(self)@.starts[j]);
                } else if i < old(self)@.starts.len() {
                    assert(old(self)@.starts[i] <= old(self)@.path.len());
                }
            }
        }
    }

    /// Appends the end-of-path marker.
    pub fn set_end(&mut self)
        requires
            old(self).wf(),
        ensures
            final(self).wf(),
            final(self)@.path == old(self)@.path + seq![spec_end_of_path()],
            final(self)@.starts == old(self)@.starts,
            final(self)@.expand_dots == old(self)@.expand_dots,
    {
        string_push_char(&mut self.path, '\u{0}');
        proof {
            assert forall|i: int| 0 <= i < self@.starts.len() implies (#[trigger] self@.starts[i])
                <= self@.path.len() by {
                assert(old(self)@.starts[i] <= old(self)@.path.len());
            }
            assert forall|i: int, j: int|
                0 <= i <= j < self@.starts.len() implies (#[trigger] self@.starts[i]) <= (
            #[trigger] self@.starts[j]) by {
                assert(old(self)@.starts[i] <= old(self)@.starts[j]);
            }
        }
    }

    /// Removes the last segment; does nothing when no segment is open.
    pub fn pop(&mut self)
        requires
            old(self).wf(),
        ensures
            final(self).wf(),
            final(self)@.expand_dots == old(self)@.expand_dots,
            (if old(self)@.starts.len() == 0 {
                final(self)@ == old(self)@
            } else {
                final(self)@.starts == old(self)@.starts.drop_last() && final(self)@.path
                    == old(self)@.path.take(old(self)@.starts.last() as int)
            }),
    {
        let last_idx_opt = self.indices.pop();
        match last_idx_opt {
            Some(last_idx) => {
                proof {
                    assert(old(self)@.starts[old(self)@.starts.len() - 1] <= old(
                        self,
                    )@.path.len());
                }
                let truncated = self.path.as_str().substring_char(0, last_idx).to_owned();
                self.path = truncated;
                proof {
                    assert(self@.path =~= old(self)@.path.take(old(self)@.starts.last() as int));
                }
            },
            None => {
            },
        }
    }

    /// Clears the path.
    pub fn clear(&mut self)
        ensures
            final(self).wf(),
            final(self)@.path == Seq::<char>::empty(),
            final(self)@.starts == Seq::<usize>::empty(),
            final(self)@.expand_dots == old(self)@.expand_dots,
    {
        self.path = String::new();
        self.indices.clear();
    }

    /// The current path.
    pub fn as_str(&self) -> (r: &str)
        ensures
            r@ == self@.path,
    {
        self.path.as_str()
    }
}

} // verus!
