//! Pluggable compression codec with a byte-size contract: deterministic for
//! one input and configuration, and carrying a declared "is compressed" flag.

use vstd::prelude::*;

verus! {

/// Failure of the pluggable compressor.
#[derive(Clone, Copy, Debug, PartialEq, Eq, Structural)]
pub struct CodecError;

/// A compressor the pipeline can be configured with. Compression must be a
/// pure function of the input bytes and the codec's own configuration.
pub trait Codec: Sized {
    /// The bytes this codec produces for an input it accepts.
    spec fn compress_spec(&self, input: Seq<u8>) -> Seq<u8>;

    /// The inputs this codec accepts; on any other it reports failure.
    spec fn accepts(&self, input: Seq<u8>) -> bool;

    /// Whether payloads produced by this codec count as compressed.
    spec fn is_compressed_spec(&self) -> bool;

    /// Compresses one full container body.
    fn compress(&self, input: &Vec<u8>) -> (r: Result<Vec<u8>, CodecError>)
        ensures
            r is Ok <==> self.accepts(input@),
            r is Ok ==> r->Ok_0@ == self.compress_spec(input@),
    ;

    /// The declared "is compressed" flag of this codec.
    fn is_compressed(&self) -> (r: bool)
        ensures
            r == self.is_compressed_spec(),
    ;
}

/// The identity codec: stores every container uncompressed and never fails.
#[derive(Clone, Copy, Debug)]
pub struct NoopCodec;

impl Codec for NoopCodec {
    open spec fn compress_spec(&self, input: Seq<u8>) -> Seq<u8> {
        input
    }

    open spec fn accepts(&self, input: Seq<u8>) -> bool {
        true
    }

    open spec fn is_compressed_spec(&self) -> bool {
        false
    }

    fn compress(&self, input: &Vec<u8>) -> (r: Result<Vec<u8>, CodecError>) {
        let mut out: Vec<u8> = Vec::new();
        let mut i: usize = 0;
        while i < input.len()
            invariant
                i <= input.len(),
                out@ == input@.take(i as int),
            decreases input.len() - i,
        {
            out.push(input[i]);
            i = i + 1;
            proof {
                assert(input@.take(i as int) =~= input@.take(i as int - 1).push(
                    input@[i as int - 1],
                ));
            }
        }
        proof {
            assert(input@.take(input@.len() as int) =~= input@);
        }
        Ok(out)
    }

    fn is_compressed(&self) -> (r: bool) {
        false
    }
}

/// A codec enforcing a worst-case size bound: containers up to its limit
/// are stored unchanged, larger ones are rejected.
#[derive(Clone, Copy, Debug)]
pub struct BoundedCodec {
    /// Largest container, in bytes, this codec accepts.
    pub limit: usize,
}

impl Codec for BoundedCodec {
    open spec fn compress_spec(&self, input: Seq<u8>) -> Seq<u8> {
        input
    }

    open spec fn accepts(&self, input: Seq<u8>) -> bool {
        input.len() <= self.limit
    }

    open spec fn is_compressed_spec(&self) -> bool {
        false
    }

    fn compress(&self, input: &Vec<u8>) -> (r: Result<Vec<u8>, CodecError>) {
        if input.len() > self.limit {
            return Err(CodecError);
        }
        let mut out: Vec<u8> = Vec::new();
        let mut i: usize = 0;
        while i < input.len()
            invariant
                i <= input.len(),
                out@ == input@.take(i as int),
            decreases input.len() - i,
        {
            out.push(input[i]);
            i = i + 1;
            proof {
                assert(input@.take(i as int) =~= input@.take(i as int - 1).push(
                    input@[i as int - 1],
                ));
            }
        }
        proof {
            assert(input@.take(input@.len() as int) =~= input@);
        }
        Ok(out)
    }

    fn is_compressed(&self) -> (r: bool) {
        false
    }
}

} // verus!
