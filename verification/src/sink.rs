use vstd::prelude::*;

verus! {

/// A composite sink: a list of byte buffers to which every write is
/// broadcast, so that one stream of log lines reaches several
/// destinations.
pub struct MultiWriter {
    pub writers: Vec<Vec<u8>>,
}

impl MultiWriter {
    /// A sink over the given destinations.
    pub fn new(writers: Vec<Vec<u8>>) -> (r: MultiWriter)
        ensures
            r.writers == writers,
    {
        MultiWriter { writers }
    }

    /// Broadcasts one write: every destination is extended by the whole
    /// buffer, and the count written is the buffer's length.
    pub fn write(&mut self, buf: &Vec<u8>) -> (n: usize)
        ensures
            n == buf@.len(),
            final(self).writers@.len() == old(self).writers@.len(),
            forall|k: int|
                0 <= k < old(self).writers@.len() ==> #[trigger] final(self).writers@[k]@ == old(
                    self,
                ).writers@[k]@ + buf@,
    {
        let ghost pre = self.writers@;
        let mut updated: Vec<Vec<u8>> = Vec::new();
        let mut j: usize = 0;
        while j < self.writers.len()
            invariant
                j <= self.writers.len(),
                self.writers@ == pre,
                updated@.len() == j,
                forall|k: int| 0 <= k < j ==> #[trigger] updated@[k]@ == pre[k]@ + buf@,
            decreases self.writers.len() - j,
        {
            let mut w = crate::engine::clone_bytes(&self.writers[j]);
            let mut i: usize = 0;
            proof {
                assert(w@ + buf@.take(0int) =~= w@);
            }
            let ghost w0 = w@;
            while i < buf.len()
                invariant
                    i <= buf@.len(),
                    w@ == w0 + buf@.take(i as int),
                decreases buf.len() - i,
            {
                w.push(buf[i]);
                proof {
                    assert(w0 + buf@.take(i as int) + seq![buf@[i as int]] =~= w0 + buf@.take(
                        i as int + 1,
                    ));
                }
                i += 1;
            }
            proof {
                assert(buf@.take(buf@.len() as int) =~= buf@);
            }
            updated.push(w);
            j += 1;
        }
        self.writers = updated;
        buf.len()
    }
}

} // verus!
