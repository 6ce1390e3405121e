use vstd::prelude::*;

use crate::buffer::Buffer;
use crate::error::DnsError;
use vstd::string::StringSliceAdditionalSpecFns;

verus! {

/// Upper bound on compression pointers followed while reading one name. A
/// chain longer than the datagram has byte positions must revisit one, so any
/// chain this long is a cycle.
pub const MAX_JUMPS: usize = 512;

/// ASCII upper-case letters folded to lower case; every other byte kept.
pub open spec fn lower(b: u8) -> u8 {
    if 65 <= b && b <= 90 {
        (b + 32) as u8
    } else {
        b
    }
}

/// The characters of one label: its bytes, folded to lower case.
pub open spec fn lower_chars(l: Seq<u8>) -> Seq<char> {
    l.map(|i: int, b: u8| lower(b) as char)
}

/// The dotted text of a label sequence: labels folded to lower case and
/// joined with `'.'`.
pub open spec fn name_chars(labels: Seq<Seq<u8>>) -> Seq<char>
    decreases labels.len(),
{
    if labels.len() == 0 {
        Seq::empty()
    } else if labels.len() == 1 {
        lower_chars(labels[0])
    } else {
        lower_chars(labels[0]) + seq!['.'] + name_chars(labels.drop_first())
    }
}

pub proof fn lemma_name_chars_push(labels: Seq<Seq<u8>>, l: Seq<u8>)
    ensures
        name_chars(labels.push(l)) == if labels.len() == 0 {
            lower_chars(l)
        } else {
            name_chars(labels) + seq!['.'] + lower_chars(l)
        },
    decreases labels.len(),
{
    if labels.len() == 0 {
        assert(labels.push(l)[0] == l);
    } else {
        assert(labels.push(l).drop_first() =~= labels.drop_first().push(l));
        lemma_name_chars_push(labels.drop_first(), l);
        if labels.len() == 1 {
            assert(name_chars(labels) == lower_chars(labels[0]));
        }
    }
}

/// The label sequence a name read at `pos` resolves to, following length
/// bytes and compression pointers, with at most `jumps_left` pointers left to
/// follow. Mirrors one linear pass: a zero length byte ends the name, a byte
/// with both top bits set is a two-byte pointer to an absolute offset, any
/// other byte is a label length.
pub open spec fn read_name(buf: Seq<u8>, pos: int, jumps_left: int) -> Result<
    Seq<Seq<u8>>,
    DnsError,
>
    decreases jumps_left, 512 - pos,
{
    if !(0 <= pos < 512) {
        Err(DnsError::OutOfBounds)
    } else {
        let len = buf[pos];
        if len == 0 {
            Ok(Seq::empty())
        } else if (len & 0xC0) == 0xC0 {
            if jumps_left <= 0 {
                Err(DnsError::PointerLoop)
            } else if pos + 1 >= 512 {
                Err(DnsError::OutOfBounds)
            } else {
                let target = ((len & 0x3F) as int) * 256 + (buf[pos + 1] as int);
                if target >= 512 {
                    Err(DnsError::OutOfBounds)
                } else {
                    read_name(buf, target, jumps_left - 1)
                }
            }
        } else {
            if pos + 1 + (len as int) > 512 {
                Err(DnsError::OutOfBounds)
            } else {
                match read_name(buf, pos + 1 + (len as int), jumps_left) {
                    Ok(rest) => Ok(seq![buf.subrange(pos + 1, pos + 1 + (len as int))] + rest),
                    Err(e) => Err(e),
                }
            }
        }
    }
}

/// Where the cursor must land after reading a name at `pos`: right past the
/// terminating zero byte if the name lies in place, or right past the first
/// compression pointer if one is met. Meaningful whenever `read_name`
/// succeeds.
pub open spec fn resume_at(buf: Seq<u8>, pos: int) -> int
    decreases 512 - pos,
{
    if !(0 <= pos < 512) {
        pos
    } else {
        let len = buf[pos];
        if len == 0 {
            pos + 1
        } else if (len & 0xC0) == 0xC0 {
            pos + 2
        } else if pos + 1 + (len as int) > 512 {
            pos
        } else {
            resume_at(buf, pos + 1 + (len as int))
        }
    }
}

/// Labels already read, in front of the outcome of the rest of the pass.
pub open spec fn prepend_labels(pre: Seq<Seq<u8>>, r: Result<Seq<Seq<u8>>, DnsError>) -> Result<
    Seq<Seq<u8>>,
    DnsError,
> {
    match r {
        Ok(rest) => Ok(pre + rest),
        Err(e) => Err(e),
    }
}

/// Relies on String::push, which appends the given character to the end of
/// the string.
#[verifier::external_body]
fn push_char(s: &mut String, c: char)
    ensures
        final(s)@ == old(s)@.push(c),
{
    s.push(c);
}

impl Buffer {
    /// Read a DNS-encoded domain name starting at the cursor and append its
    /// dotted, lower-cased text to `domain_name`. Compression pointers are
    /// followed; the cursor ends right after the name as it lies in the
    /// datagram, never at the end of a pointer chain. On an error nothing is
    /// changed.
    #[verifier::loop_isolation(false)]
    pub fn get_domain_name(&mut self, domain_name: &mut String) -> (r: Result<(), DnsError>)
        requires
            old(self).wf(),
        ensures
            final(self).wf(),
            final(self).buf@ == old(self).buf@,
            match r {
                Ok(()) => ({
                    &&& read_name(old(self).buf@, old(self).pos as int, MAX_JUMPS as int)
                        matches Ok(labels) && final(domain_name)@ == old(domain_name)@
                        + name_chars(labels)
                    &&& final(self).pos as int == resume_at(old(self).buf@, old(self).pos as int)
                }),
                Err(e) => ({
                    &&& read_name(old(self).buf@, old(self).pos as int, MAX_JUMPS as int) == Err::<
                        Seq<Seq<u8>>,
                        DnsError,
                    >(e)
                    &&& final(self).pos == old(self).pos
                    &&& final(domain_name)@ == old(domain_name)@
                }),
            },
    {
        let ghost buf0 = self.buf@;
        let ghost pos0 = self.pos as int;
        let mut pos: usize = self.pos;
        let mut jumps_left: usize = MAX_JUMPS;
        let mut jumped = false;
        let mut first = true;
        let mut resume: usize = 0;
        let mut out = String::new();
        let ghost mut labels: Seq<Seq<u8>> = Seq::empty();

        loop
            invariant
                self.wf(),
                self.buf@ == buf0,
                self.pos as int == pos0,
                domain_name@ == old(domain_name)@,
                pos <= 512,
                jumps_left <= MAX_JUMPS,
                first <==> labels.len() == 0,
                out@ == name_chars(labels),
                read_name(buf0, pos0, MAX_JUMPS as int) == prepend_labels(
                    labels,
                    read_name(buf0, pos as int, jumps_left as int),
                ),
                !jumped ==> resume_at(buf0, pos0) == resume_at(buf0, pos as int),
                jumped ==> resume as int == resume_at(buf0, pos0) && resume <= 512,
            decreases jumps_left, 512 - pos,
        {
            let len = match self.get(pos) {
                Ok(v) => v,
                Err(e) => {
                    return Err(e);
                },
            };
            if len == 0 {
                if !jumped {
                    self.pos = pos + 1;
                } else {
                    self.pos = resume;
                }
                proof {
                    assert(labels + Seq::<Seq<u8>>::empty() =~= labels);
                }
                domain_name.append(out.as_str());
                return Ok(());
            } else if (len & 0xC0) == 0xC0 {
                if jumps_left == 0 {
                    return Err(DnsError::PointerLoop);
                }
                let byte2 = match self.get(pos + 1) {
                    Ok(v) => v,
                    Err(e) => {
                        return Err(e);
                    },
                };
                if !jumped {
                    resume = pos + 2;
                }
                proof {
                    assert((len & 0x3F) <= 0x3F) by (bit_vector);
                }
                let target = ((len & 0x3F) as usize) * 256 + (byte2 as usize);
                if target >= 512 {
                    return Err(DnsError::OutOfBounds);
                }
                pos = target;
                jumps_left = jumps_left - 1;
                jumped = true;
            } else {
                let word = match self.get_range(pos + 1, len as usize) {
                    Ok(v) => v,
                    Err(e) => {
                        return Err(e);
                    },
                };
                if !first {
                    push_char(&mut out, '.');
                }
                let ghost pre = out@;
                let mut j: usize = 0;
                while j < word.len()
                    invariant
                        j <= word@.len(),
                        out@ == pre + lower_chars(word@.take(j as int)),
                    decreases word@.len() - j,
                {
                    let b = word[j];
                    let lb = if b >= 65 && b <= 90 {
                        b + 32
                    } else {
                        b
                    };
                    push_char(&mut out, lb as char);
                    proof {
                        assert(lower_chars(word@.take(j + 1)) =~= lower_chars(
                            word@.take(j as int),
                        ).push(lower(word@[j as int]) as char));
                    }
                    j += 1;
                }
                proof {
                    assert(word@.take(word@.len() as int) =~= word@);
                    lemma_name_chars_push(labels, word@);
                    let stepped = read_name(buf0, pos + 1 + (len as int), jumps_left as int);
                    if stepped is Ok {
                        assert(labels + (seq![word@] + stepped.unwrap()) =~= labels.push(word@)
                            + stepped.unwrap());
                    }
                    labels = labels.push(word@);
                }
                first = false;
                pos = pos + 1 + (len as usize);
            }
        }
    }
}

/// The labels of a dotted name: its bytes split on `'.'` (byte 46). An empty
/// byte string is one empty label; every dot starts a new label.
pub open spec fn split_labels(b: Seq<u8>) -> Seq<Seq<u8>>
    decreases b.len(),
{
    if b.len() == 0 {
        seq![Seq::<u8>::empty()]
    } else if b[0] == 46 {
        seq![Seq::<u8>::empty()] + split_labels(b.drop_first())
    } else {
        let rest = split_labels(b.drop_first());
        seq![seq![b[0]] + rest[0]] + rest.drop_first()
    }
}

/// The wire encoding of a label sequence: each label as a length byte
/// followed by its bytes, then a terminating zero byte.
pub open spec fn encode_labels(ls: Seq<Seq<u8>>) -> Seq<u8>
    decreases ls.len(),
{
    if ls.len() == 0 {
        seq![0u8]
    } else {
        seq![ls[0].len() as u8] + ls[0] + encode_labels(ls.drop_first())
    }
}

/// One length-prefixed label, without any terminator.
pub open spec fn enc_label(l: Seq<u8>) -> Seq<u8> {
    seq![l.len() as u8] + l
}

/// The length-prefixed run of several labels, without any terminator.
pub open spec fn enc_front(ls: Seq<Seq<u8>>) -> Seq<u8>
    decreases ls.len(),
{
    if ls.len() == 0 {
        Seq::empty()
    } else {
        enc_label(ls[0]) + enc_front(ls.drop_first())
    }
}

pub proof fn lemma_split_nonempty(b: Seq<u8>)
    ensures
        split_labels(b).len() >= 1,
    decreases b.len(),
{
    if b.len() > 0 {
        lemma_split_nonempty(b.drop_first());
    }
}

/// A scan that saw no dot before `k`, and a dot or the end at `k`, has found
/// exactly the first label.
pub proof fn lemma_split_boundary(b: Seq<u8>, k: int)
    requires
        0 <= k <= b.len(),
        forall|j: int| 0 <= j < k ==> b[j] != 46,
        k == b.len() || b[k] == 46,
    ensures
        split_labels(b)[0] == b.take(k),
        k == b.len() ==> split_labels(b) == seq![b.take(k)],
        k < b.len() ==> split_labels(b) == seq![b.take(k)] + split_labels(b.skip(k + 1)),
    decreases k,
{
    lemma_split_nonempty(b);
    if k == 0 {
        if b.len() == 0 {
            assert(b.take(0) =~= Seq::<u8>::empty());
            assert(split_labels(b) =~~= seq![b.take(0)]);
        } else {
            assert(b[0] == 46);
            assert(b.take(0) =~= Seq::<u8>::empty());
            assert(split_labels(b)[0] == b.take(0));
            assert(b.skip(1) =~= b.drop_first());
            assert(split_labels(b) =~~= seq![b.take(0)] + split_labels(b.skip(1)));
        }
    } else {
        let d = b.drop_first();
        lemma_split_boundary(d, k - 1);
        lemma_split_nonempty(d);
        assert(b.take(k) =~= seq![b[0]] + d.take(k - 1));
        assert(split_labels(b)[0] == seq![b[0]] + split_labels(d)[0]);
        if k == b.len() {
            assert(split_labels(d) == seq![d.take(k - 1)]);
            assert(split_labels(b) =~~= seq![b.take(k)]);
        } else {
            assert(b.skip(k + 1) =~= d.skip(k));
            assert(split_labels(b) =~~= seq![b.take(k)] + split_labels(b.skip(k + 1)));
        }
    }
}

/// A scan that saw no dot before `k` is still inside the first label, so that
/// label has at least `k` bytes.
pub proof fn lemma_split_first_lower(b: Seq<u8>, k: int)
    requires
        0 <= k <= b.len(),
        forall|j: int| 0 <= j < k ==> b[j] != 46,
    ensures
        split_labels(b)[0].len() >= k,
    decreases k,
{
    if k > 0 {
        lemma_split_first_lower(b.drop_first(), k - 1);
        lemma_split_nonempty(b.drop_first());
    }
}

/// The encoding of a label sequence is the length-prefixed run of any front
/// part, then the encoding of the rest.
pub proof fn lemma_encode_decomp(done: Seq<Seq<u8>>, rem: Seq<Seq<u8>>)
    ensures
        encode_labels(done + rem) == enc_front(done) + encode_labels(rem),
    decreases done.len(),
{
    if done.len() == 0 {
        assert(done + rem =~= rem);
        assert(enc_front(done) + encode_labels(rem) =~= encode_labels(rem));
    } else {
        lemma_encode_decomp(done.drop_first(), rem);
        assert((done + rem).drop_first() =~= done.drop_first() + rem);
        assert(encode_labels(done + rem) =~= enc_front(done) + encode_labels(rem));
    }
}

pub proof fn lemma_enc_front_push(ls: Seq<Seq<u8>>, l: Seq<u8>)
    ensures
        enc_front(ls.push(l)) == enc_front(ls) + enc_label(l),
    decreases ls.len(),
{
    reveal_with_fuel(enc_front, 3);
    if ls.len() == 0 {
        assert(ls.push(l)[0] == l);
        assert(ls.push(l).drop_first() =~~= Seq::<Seq<u8>>::empty());
        assert(enc_front(ls.push(l)) =~= enc_front(ls) + enc_label(l));
    } else {
        lemma_enc_front_push(ls.drop_first(), l);
        assert(ls.push(l)[0] == ls[0]);
        assert(ls.push(l).drop_first() =~~= ls.drop_first().push(l));
        assert(enc_front(ls.push(l)) =~= enc_front(ls) + enc_label(l));
    }
}

/// Encoding a dotted byte string always takes its length plus two bytes: one
/// length byte per label replaces each dot and prefixes the first label, and
/// one zero byte ends the name.
pub proof fn lemma_encode_len(b: Seq<u8>)
    ensures
        encode_labels(split_labels(b)).len() == b.len() + 2,
    decreases b.len(),
{
    reveal_with_fuel(encode_labels, 3);
    reveal_with_fuel(split_labels, 2);
    lemma_split_nonempty(b);
    if b.len() == 0 {
    } else if b[0] == 46 {
        lemma_encode_len(b.drop_first());
        assert(split_labels(b)[0] == Seq::<u8>::empty());
        assert(split_labels(b).drop_first() =~~= split_labels(b.drop_first()));
    } else {
        lemma_encode_len(b.drop_first());
        let rest = split_labels(b.drop_first());
        lemma_split_nonempty(b.drop_first());
        assert(split_labels(b)[0] == seq![b[0]] + rest[0]);
        assert(split_labels(b).drop_first() =~~= rest.drop_first());
        assert(encode_labels(split_labels(b)).len() == 1 + (seq![b[0]] + rest[0]).len()
            + encode_labels(rest.drop_first()).len());
        assert(encode_labels(rest).len() == 1 + rest[0].len() + encode_labels(
            rest.drop_first(),
        ).len());
    }
}

/// Splitting a byte string on dots and joining the labels back with `'.'`
/// gives the string back, folded to lower case.
pub proof fn lemma_split_join(b: Seq<u8>)
    ensures
        name_chars(split_labels(b)) == lower_chars(b),
    decreases b.len(),
{
    lemma_split_nonempty(b);
    if b.len() == 0 {
        assert(name_chars(split_labels(b)) =~= lower_chars(b));
    } else if b[0] == 46 {
        lemma_split_join(b.drop_first());
        let sp = split_labels(b);
        assert(sp.drop_first() =~= split_labels(b.drop_first()));
        lemma_split_nonempty(b.drop_first());
        assert(sp.len() >= 2);
        assert(name_chars(sp) == lower_chars(sp[0]) + seq!['.'] + name_chars(sp.drop_first()));
        assert(lower_chars(sp[0]) =~= Seq::<char>::empty());
        assert(lower_chars(b) =~= seq!['.'] + lower_chars(b.drop_first()));
        assert(name_chars(sp) =~= lower_chars(b));
    } else {
        lemma_split_join(b.drop_first());
        let d = b.drop_first();
        let rest = split_labels(d);
        let sp = split_labels(b);
        assert(sp[0] == seq![b[0]] + rest[0]);
        assert(sp.drop_first() =~= rest.drop_first());
        assert(lower_chars(seq![b[0]] + rest[0]) =~= seq![lower(b[0]) as char] + lower_chars(
            rest[0],
        ));
        assert(lower_chars(b) =~= seq![lower(b[0]) as char] + lower_chars(d));
        if rest.len() == 1 {
            assert(name_chars(sp) == lower_chars(sp[0]));
            assert(name_chars(rest) == lower_chars(rest[0]));
            assert(name_chars(sp) =~= lower_chars(b));
        } else {
            assert(name_chars(sp) == lower_chars(sp[0]) + seq!['.'] + name_chars(
                sp.drop_first(),
            ));
            assert(name_chars(rest) == lower_chars(rest[0]) + seq!['.'] + name_chars(
                rest.drop_first(),
            ));
            assert(name_chars(sp) =~= lower_chars(b));
        }
    }
}

/// A label sequence laid down by `encode_labels` reads back as exactly that
/// sequence, with the cursor landing right after the terminating zero byte,
/// whatever the pointer budget is: an encoded name holds no pointer.
pub proof fn lemma_read_encoded(buf: Seq<u8>, pos: int, ls: Seq<Seq<u8>>, jumps_left: int)
    requires
        buf.len() == 512,
        0 <= pos,
        pos + encode_labels(ls).len() <= 512,
        forall|i: int| 0 <= i < ls.len() ==> 1 <= #[trigger] ls[i].len() <= 63,
        buf.subrange(pos, pos + encode_labels(ls).len()) == encode_labels(ls),
    ensures
        read_name(buf, pos, jumps_left) == Ok::<Seq<Seq<u8>>, DnsError>(ls),
        resume_at(buf, pos) == pos + encode_labels(ls).len(),
    decreases ls.len(),
{
    let enc = encode_labels(ls);
    let sub = buf.subrange(pos, pos + enc.len());
    if ls.len() == 0 {
        assert(sub[0] == enc[0]);
        assert(sub[0] == buf[pos + 0]);
        assert(buf[pos] == 0);
        assert(Seq::<Seq<u8>>::empty() =~~= ls);
    } else {
        let l0 = ls[0];
        let n0 = l0.len() as int;
        let rest = ls.drop_first();
        let enc_rest = encode_labels(rest);
        assert(enc == seq![l0.len() as u8] + l0 + enc_rest);
        assert(enc.len() == 1 + n0 + enc_rest.len());
        assert(enc_rest.len() >= 1);
        assert(sub[0] == enc[0]);
        assert(sub[0] == buf[pos + 0]);
        let lenb = buf[pos];
        assert(enc[0] == l0.len() as u8);
        assert(lenb as int == n0);
        assert((lenb & 0xC0) != 0xC0) by (bit_vector)
            requires
                1 <= lenb <= 63,
        ;
        assert forall|j: int| 0 <= j < n0 implies buf.subrange(pos + 1, pos + 1 + n0)[j]
            == l0[j] by {
            assert(buf.subrange(pos + 1, pos + 1 + n0)[j] == buf[pos + 1 + j]);
            assert(sub[1 + j] == buf[pos + (1 + j)]);
            assert(sub[1 + j] == enc[1 + j]);
            assert(enc[1 + j] == l0[j]);
        }
        assert(buf.subrange(pos + 1, pos + 1 + n0) =~= l0);
        assert forall|j: int| 0 <= j < enc_rest.len() implies buf.subrange(
            pos + 1 + n0,
            pos + 1 + n0 + enc_rest.len(),
        )[j] == enc_rest[j] by {
            assert(buf.subrange(pos + 1 + n0, pos + 1 + n0 + enc_rest.len())[j] == buf[pos + 1 + n0
                + j]);
            assert(sub[1 + n0 + j] == buf[pos + (1 + n0 + j)]);
            assert(sub[1 + n0 + j] == enc[1 + n0 + j]);
            assert(enc[1 + n0 + j] == enc_rest[j]);
        }
        assert(buf.subrange(pos + 1 + n0, pos + 1 + n0 + enc_rest.len()) =~= enc_rest);
        lemma_read_encoded(buf, pos + 1 + n0, rest, jumps_left);
        assert(seq![buf.subrange(pos + 1, pos + 1 + n0)] + rest =~~= ls);
    }
}

/// Law: encoding a dot-separated name into a buffer and decoding a name from
/// the same position yields the name back, folded to lower case, with the
/// cursor right after the terminating zero byte. It holds for every name
/// whose labels hold 1 to 63 bytes each and whose encoding fits the datagram.
pub proof fn lemma_name_round_trip(buf: Seq<u8>, pos: int, bytes: Seq<u8>)
    requires
        buf.len() == 512,
        0 <= pos,
        pos + bytes.len() + 2 <= 512,
        forall|i: int|
            0 <= i < split_labels(bytes).len() ==> 1 <= #[trigger] split_labels(bytes)[i].len()
                <= 63,
    ensures
        ({
            let buf2 = crate::buffer::splice(buf, pos, encode_labels(split_labels(bytes)));
            &&& read_name(buf2, pos, MAX_JUMPS as int) == Ok::<Seq<Seq<u8>>, DnsError>(
                split_labels(bytes),
            )
            &&& resume_at(buf2, pos) == pos + bytes.len() + 2
            &&& name_chars(split_labels(bytes)) == lower_chars(bytes)
        }),
{
    let ls = split_labels(bytes);
    lemma_encode_len(bytes);
    lemma_split_join(bytes);
    crate::buffer::lemma_splice_facts(buf, pos, encode_labels(ls));
    lemma_read_encoded(
        crate::buffer::splice(buf, pos, encode_labels(ls)),
        pos,
        ls,
        MAX_JUMPS as int,
    );
}

/// Whether every label of a dotted name holds at most 63 bytes, the most a
/// length byte can carry.
#[verifier::loop_isolation(false)]
pub fn name_labels_fit(domain_name: &str) -> (b: bool)
    ensures
        b <==> (forall|i: int|
            0 <= i < split_labels(domain_name.spec_bytes()).len()
                ==> #[trigger] split_labels(domain_name.spec_bytes())[i].len() <= 63),
{
    let bytes: &[u8] = domain_name.as_bytes();
    let n: usize = bytes.len();
    let ghost bs = domain_name.spec_bytes();
    let ghost ls = split_labels(bs);
    let mut i: usize = 0;
    let mut run: usize = 0;
    let ghost mut done: Seq<Seq<u8>> = Seq::empty();
    proof {
        lemma_split_nonempty(bs);
        assert(bs.skip(0) =~= bs);
        assert(ls =~~= done + split_labels(bs.skip(0)));
    }
    while i < n
        invariant
            i <= n,
            n == bs.len(),
            bytes@ == bs,
            run <= i,
            run <= 63,
            forall|j: int| i - run <= j < i ==> bs[j] != 46,
            ls == done + split_labels(bs.skip(i - run)),
            forall|k: int| 0 <= k < done.len() ==> #[trigger] done[k].len() <= 63,
        decreases n - i,
    {
        if bytes[i] == 46 {
            proof {
                let start = i - run;
                let tail = bs.skip(start);
                lemma_split_boundary(tail, run as int);
                assert(tail.skip(run + 1) =~= bs.skip(i + 1));
                done = done.push(tail.take(run as int));
                assert(ls =~~= done + split_labels(bs.skip(i + 1)));
            }
            run = 0;
        } else {
            if run >= 63 {
                proof {
                    let start = i - run;
                    let tail = bs.skip(start);
                    lemma_split_first_lower(tail, run + 1);
                    lemma_split_nonempty(tail);
                    assert(ls[done.len() as int] == split_labels(tail)[0]);
                    assert(ls[done.len() as int].len() > 63);
                }
                return false;
            }
            run = run + 1;
        }
        i = i + 1;
    }
    proof {
        let start = n - run;
        let tail = bs.skip(start);
        lemma_split_boundary(tail, run as int);
        done = done.push(tail.take(run as int));
        assert(ls =~~= done);
    }
    true
}

impl Buffer {
    /// Write the wire encoding of a dotted name at the cursor: each label as
    /// a length byte followed by the label's bytes, then a terminating zero
    /// byte. Compression is never used on write. Either the whole name is
    /// encoded, or — when a label is longer than 63 bytes, or the encoding
    /// does not fit the datagram — nothing is changed.
    #[verifier::loop_isolation(false)]
    #[verifier::rlimit(100)]
    pub fn set_domain_name(&mut self, domain_name: &str) -> (r: Result<(), DnsError>)
        requires
            old(self).wf(),
        ensures
            final(self).wf(),
            match r {
                Ok(()) => ({
                    let ls = split_labels(domain_name.spec_bytes());
                    &&& forall|i: int| 0 <= i < ls.len() ==> #[trigger] ls[i].len() <= 63
                    &&& old(self).pos + domain_name.spec_bytes().len() + 2 <= 512
                    &&& final(self).buf@ == crate::buffer::splice(
                        old(self).buf@,
                        old(self).pos as int,
                        encode_labels(ls),
                    )
                    &&& final(self).pos == old(self).pos + domain_name.spec_bytes().len() + 2
                }),
                Err(e) => ({
                    let ls = split_labels(domain_name.spec_bytes());
                    &&& final(self).buf@ == old(self).buf@
                    &&& final(self).pos == old(self).pos
                    &&& if exists|i: int| 0 <= i < ls.len() && #[trigger] ls[i].len() > 63 {
                        e == DnsError::LabelTooLong
                    } else {
                        e == DnsError::OutOfBounds && old(self).pos + domain_name.spec_bytes().len()
                            + 2 > 512
                    }
                }),
            },
    {
        let bytes: &[u8] = domain_name.as_bytes();
        let n: usize = bytes.len();
        let ghost bs = domain_name.spec_bytes();
        let ghost ls = split_labels(bs);
        proof {
            lemma_split_nonempty(bs);
        }
        // Nothing is written until no label is too long.
        if !name_labels_fit(domain_name) {
            return Err(DnsError::LabelTooLong);
        }
        proof {
            lemma_encode_len(bs);
        }
        // Every label fits; now the whole encoding must fit the datagram.
        if self.pos > 510 || n > 510 - self.pos {
            return Err(DnsError::OutOfBounds);
        }
        // Second pass: lay the labels down.
        let ghost buf0 = self.buf@;
        let ghost pos0 = self.pos as int;
        let ghost mut written: Seq<u8> = Seq::empty();
        let ghost mut wdone: Seq<Seq<u8>> = Seq::empty();
        proof {
            assert(crate::buffer::splice(buf0, pos0, written) =~= buf0);
            assert(bs.skip(0) =~= bs);
            assert(ls =~~= wdone + split_labels(bs.skip(0)));
        }
        let mut start: usize = 0;
        loop
            invariant
                self.wf(),
                n == bs.len(),
                bytes@ == bs,
                start <= n,
                pos0 + n + 2 <= 512,
                0 <= pos0,
                forall|k: int| 0 <= k < ls.len() ==> #[trigger] ls[k].len() <= 63,
                ls == wdone + split_labels(bs.skip(start as int)),
                written == enc_front(wdone),
                written.len() == start,
                self.buf@ == crate::buffer::splice(buf0, pos0, written),
                self.pos as int == pos0 + written.len(),
            decreases n - start,
        {
            let mut end: usize = start;
            while end < n && bytes[end] != 46
                invariant
                    start <= end <= n,
                    forall|j: int| start <= j < end ==> bs[j] != 46,
                decreases n - end,
            {
                end = end + 1;
            }
            let ghost tail = bs.skip(start as int);
            let ghost label = tail.take(end - start);
            proof {
                lemma_split_boundary(tail, end - start);
                lemma_split_nonempty(tail);
                assert(ls[wdone.len() as int] == label);
                assert(label.len() <= 63);
                crate::buffer::lemma_splice_push(buf0, pos0, written, (end - start) as u8);
            }
            let label_len = end - start;
            self.write_u8(label_len as u8)?;
            proof {
                written = written.push(label_len as u8);
            }
            let mut j = start;
            while j < end
                invariant
                    start <= j <= end,
                    self.wf(),
                    written == enc_front(wdone) + seq![(end - start) as u8] + bs.subrange(
                        start as int,
                        j as int,
                    ),
                    self.buf@ == crate::buffer::splice(buf0, pos0, written),
                    self.pos as int == pos0 + written.len(),
                decreases end - j,
            {
                proof {
                    crate::buffer::lemma_splice_push(buf0, pos0, written, bs[j as int]);
                }
                self.write_u8(bytes[j])?;
                proof {
                    written = written.push(bs[j as int]);
                    assert(written =~= enc_front(wdone) + seq![(end - start) as u8] + bs.subrange(
                        start as int,
                        j + 1,
                    ));
                }
                j = j + 1;
            }
            proof {
                assert(label =~= bs.subrange(start as int, end as int));
                lemma_enc_front_push(wdone, label);
                wdone = wdone.push(label);
                assert(written =~= enc_front(wdone));
            }
            if end == n {
                proof {
                    assert(ls =~~= wdone);
                }
                break ;
            }
            proof {
                assert(tail.skip((end - start) + 1) =~= bs.skip(end + 1));
                assert(ls =~~= wdone + split_labels(bs.skip(end + 1)));
            }
            start = end + 1;
        }
        proof {
            crate::buffer::lemma_splice_push(buf0, pos0, written, 0u8);
            lemma_encode_decomp(ls, Seq::empty());
            assert(ls + Seq::<Seq<u8>>::empty() =~~= ls);
            assert(written.push(0u8) =~= encode_labels(ls));
        }
        self.write_u8(0)?;
        Ok(())
    }
}

} // verus!
