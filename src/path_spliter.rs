use vstd::prelude::*;
use vstd::string::StringSliceAdditionalSpecFns;

verus! {

/// Reads one segment of `raw` from `pos` on, with `acc` read so far: a `/` ends the
/// segment, a `\` takes the next byte literally (a `\` at the very end is
/// dropped). Gives the segment, where reading stopped, and whether a `/` ended it.
pub open spec fn scan_segment(raw: Seq<u8>, pos: int, acc: Seq<u8>) -> (Seq<u8>, int, bool)
    decreases raw.len() - pos,
{
    if pos < 0 || pos >= raw.len() {
        (acc, pos, false)
    } else if raw[pos] == 0x2fu8 {
        (acc, pos + 1, true)
    } else if raw[pos] == 0x5cu8 {
        if pos + 1 < raw.len() {
            scan_segment(raw, pos + 2, acc.push(raw[pos + 1]))
        } else {
            scan_segment(raw, pos + 1, acc)
        }
    } else {
        scan_segment(raw, pos + 1, acc.push(raw[pos]))
    }
}

/// Splits a path into its segments at `/`, honouring `\` escapes.
pub struct PathSpliter<'a> {
    raw_path: &'a [u8],
    cur_pos: usize,
}

impl<'a> PathSpliter<'a> {
    /// The bytes being split.
    pub closed spec fn raw(self) -> Seq<u8> {
        self.raw_path@
    }

    /// Where the next segment starts.
    pub closed spec fn pos(self) -> int {
        self.cur_pos as int
    }

    pub fn new(p: &'a str) -> (r: PathSpliter<'a>)
        ensures
            r.raw() == p.spec_bytes(),
            r.pos() == 0,
    {
        PathSpliter { raw_path: p.as_bytes(), cur_pos: 0 }
    }

    /// The next segment: one ended by a `/` is returned even when empty; what
    /// follows the last `/` is returned only when non-empty.
    pub fn next(&mut self) -> (r: Option<Vec<u8>>)
        requires
            old(self).pos() <= old(self).raw().len(),
        ensures
            final(self).raw() == old(self).raw(),
            final(self).pos() <= final(self).raw().len(),
            ({
                let (seg, end, slash) = scan_segment(old(self).raw(), old(self).pos(), seq![]);
                &&& final(self).pos() == end
                &&& (r is Some <==> (slash || seg.len() > 0))
                &&& (r matches Some(v) ==> v@ == seg)
            }),
    {
        let mut buf: Vec<u8> = Vec::new();
        let ghost start = self.cur_pos as int;
        while self.cur_pos < self.raw_path.len()
            invariant
                self.raw() == old(self).raw(),
                self.pos() <= self.raw().len(),
                start == old(self).pos(),
                scan_segment(self.raw(), start, seq![]) == scan_segment(self.raw(), self.pos(), buf@),
            decreases self.raw().len() - self.pos(),
        {
            let c = self.raw_path[self.cur_pos];
            self.cur_pos = self.cur_pos + 1;
            if c == 0x2fu8 {
                return Some(buf);
            } else if c == 0x5cu8 {
                if self.cur_pos < self.raw_path.len() {
                    let d = self.raw_path[self.cur_pos];
                    buf.push(d);
                    self.cur_pos = self.cur_pos + 1;
                }
            } else {
                buf.push(c);
            }
        }
        if buf.len() == 0 {
            None
        } else {
            Some(buf)
        }
    }
}

} // verus!
