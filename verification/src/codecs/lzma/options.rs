//! Properties, options and resource limits of the LZMA codec.

use vstd::arithmetic::power2::{lemma2_to64, pow2};
use vstd::prelude::*;

use crate::codecs::error::Error;
use crate::codecs::lzma::fault::Fault;
use crate::codecs::lzma::operations::Shape;
use crate::codecs::zlib::options::ResourceLimits;
use crate::math::{lemma_pow2_monotonic, power_of_two};

verus! {

/// The smallest dictionary.
pub const MIN_DICTIONARY_SIZE: u32 = 4096;

/// LZMA1 model and match-finder properties.
#[derive(Debug, Clone, Copy, PartialEq, Eq, Structural)]
pub struct LzmaProps {
    pub lc: u32,
    pub lp: u32,
    pub pb: u32,
    /// Dictionary size in bytes; values below 4 KiB stand for 4 KiB.
    pub dict_size: u32,
    /// Matching bytes that end the bounded search early.
    pub fb: u32,
    /// Maximum hash-chain candidates inspected at each position.
    pub mc: u32,
}

impl Default for LzmaProps {
    fn default() -> (props: Self)
        ensures
            props == (LzmaProps { lc: 3, lp: 0, pb: 2, dict_size: 0x10000, fb: 32, mc: 32 }),
    {
        LzmaProps { lc: 3, lp: 0, pb: 2, dict_size: 0x10000, fb: 32, mc: 32 }
    }
}

/// The number that four bytes stand for, least significant first.
pub open spec fn little_endian(bytes: Seq<u8>) -> int {
    bytes[0] + bytes[1] * 0x100 + bytes[2] * 0x1_0000 + bytes[3] * 0x100_0000
}

/// The five bytes that tell a decoder the properties.
pub open spec fn property_bytes(props: LzmaProps) -> Seq<u8> {
    seq![
        ((props.pb * 5 + props.lp) * 9 + props.lc) as u8,
        (props.dict_size % 0x100) as u8,
        (props.dict_size / 0x100 % 0x100) as u8,
        (props.dict_size / 0x1_0000 % 0x100) as u8,
        (props.dict_size / 0x100_0000) as u8,
    ]
}

/// The properties that five bytes stand for, before any dictionary size is raised.
pub open spec fn properties_of(bytes: Seq<u8>, fb: u32, mc: u32) -> LzmaProps {
    LzmaProps {
        lc: (bytes[0] % 9) as u32,
        lp: (bytes[0] / 9 % 5) as u32,
        pb: (bytes[0] / 9 / 5) as u32,
        dict_size: little_endian(bytes.skip(1)) as u32,
        fb,
        mc,
    }
}

impl LzmaProps {
    /// The context bits are within their limits.
    pub open spec fn contexts_ok(self) -> bool {
        self.lc <= 8 && self.lp <= 4 && self.pb <= 4 && self.lc + self.lp <= 12
    }

    /// The same properties with at least the smallest dictionary.
    pub open spec fn with_dictionary(self) -> LzmaProps {
        LzmaProps {
            dict_size: if self.dict_size < MIN_DICTIONARY_SIZE {
                MIN_DICTIONARY_SIZE
            } else {
                self.dict_size
            },
            ..self
        }
    }

    /// Properties that pass validation unchanged.
    pub open spec fn valid(self) -> bool {
        self.contexts_ok() && self.dict_size >= MIN_DICTIONARY_SIZE
    }

    /// The shape of streams with these properties.
    pub open spec fn shape(self) -> Shape {
        Shape {
            lc: self.lc as nat,
            lp: self.lp as nat,
            pb: self.pb as nat,
            dict: self.dict_size as int,
        }
    }

    /// Checks the properties and raises a dictionary that is too small.
    pub(crate) fn checked(self) -> (props: Result<Self, Fault>)
        ensures
            props == (if self.contexts_ok() {
                Ok::<LzmaProps, Fault>(self.with_dictionary())
            } else {
                Err(Fault::ContextOptions)
            }),
    {
        if self.lc > 8 || self.lp > 4 || self.pb > 4 || self.lc + self.lp > 12 {
            return Err(Fault::ContextOptions);
        }
        let mut props = self;
        if props.dict_size < MIN_DICTIONARY_SIZE {
            props.dict_size = MIN_DICTIONARY_SIZE;
        }
        Ok(props)
    }

    /// Checks the properties and raises a dictionary that is too small.
    pub fn validate(self) -> (props: Result<Self, Error>)
        ensures
            self.contexts_ok() ==> props is Ok && props->Ok_0 == self.with_dictionary()
                && props->Ok_0.valid(),
            !self.contexts_ok() ==> props is Err && props->Err_0@
                == Fault::ContextOptions.report(),
    {
        match self.checked() {
            Ok(props) => Ok(props),
            Err(fault) => Err(fault.error()),
        }
    }

    /// The five property bytes, after validation.
    pub fn decoder_properties(self) -> (bytes: Result<[u8; 5], Error>)
        ensures
            self.contexts_ok() ==> bytes is Ok && bytes->Ok_0@ == property_bytes(
                self.with_dictionary(),
            ),
            !self.contexts_ok() ==> bytes is Err && bytes->Err_0@
                == Fault::ContextOptions.report(),
    {
        let props = match self.validate() {
            Ok(props) => props,
            Err(error) => return Err(error),
        };
        let size: u32 = props.dict_size;
        let bytes: [u8; 5] = [
            ((props.pb * 5 + props.lp) * 9 + props.lc) as u8,
            (size % 0x100) as u8,
            (size / 0x100 % 0x100) as u8,
            (size / 0x1_0000 % 0x100) as u8,
            (size / 0x100_0000) as u8,
        ];
        assert(bytes@ =~= property_bytes(props));
        Ok(bytes)
    }

    /// The properties that the five bytes stand for.
    pub(crate) fn parse(bytes: &[u8; 5], fb: u32, mc: u32) -> (props: Option<Self>)
        ensures
            bytes@[0] >= 225 ==> props is None,
            bytes@[0] < 225 ==> props == Some(properties_of(bytes@, fb, mc).with_dictionary()),
            props matches Some(props) ==> props.valid(),
    {
        let property: u32 = bytes[0] as u32;
        if property >= 225 {
            return None;
        }
        let dict_size: u32 = bytes[1] as u32 + bytes[2] as u32 * 0x100 + bytes[3] as u32 * 0x1_0000
            + bytes[4] as u32 * 0x100_0000;
        let props = LzmaProps {
            lc: property % 9,
            lp: property / 9 % 5,
            pb: property / 9 / 5,
            dict_size,
            fb,
            mc,
        };
        match props.checked() {
            Ok(props) => Some(props),
            Err(_) => None,
        }
    }

    /// The properties that the five bytes stand for, with default search effort.
    pub fn from_decoder_properties(properties: [u8; 5]) -> (props: Result<Self, Error>)
        ensures
            properties@[0] >= 225 ==> props is Err && props->Err_0@
                == Fault::PropertiesOption.report(),
            properties@[0] < 225 ==> props is Ok && props->Ok_0 == properties_of(
                properties@,
                32,
                32,
            ).with_dictionary() && props->Ok_0.valid(),
    {
        match LzmaProps::parse(&properties, 32, 32) {
            Some(props) => Ok(props),
            None => Err(Fault::PropertiesOption.error()),
        }
    }
}

/// Valid properties survive being written and read.
pub proof fn lemma_properties_round_trip(props: LzmaProps)
    requires
        props.valid(),
    ensures
        property_bytes(props).len() == 5,
        property_bytes(props)[0] < 225,
        properties_of(property_bytes(props), props.fb, props.mc) == props,
        properties_of(property_bytes(props), props.fb, props.mc).with_dictionary() == props,
{
    let code = (props.pb * 5 + props.lp) * 9 + props.lc;
    assert(code % 9 == props.lc && code / 9 == props.pb * 5 + props.lp);
    let bytes = property_bytes(props);
    let tail = bytes.skip(1);
    assert(tail[0] == bytes[1] && tail[1] == bytes[2] && tail[2] == bytes[3] && tail[3]
        == bytes[4]);
}

#[derive(Debug, Clone, Copy, PartialEq, Eq, Structural)]
pub struct EncoderOptions {
    pub properties: LzmaProps,
    pub limits: ResourceLimits,
}

impl Default for EncoderOptions {
    fn default() -> (options: Self)
        ensures
            options.properties == (LzmaProps {
                lc: 3,
                lp: 0,
                pb: 2,
                dict_size: 0x10000,
                fb: 32,
                mc: 32,
            }),
            options.limits == ResourceLimits::no_limits(),
    {
        EncoderOptions { properties: LzmaProps::default(), limits: ResourceLimits::unlimited() }
    }
}

#[derive(Debug, Clone, Copy, PartialEq, Eq, Structural)]
pub struct DecoderOptions {
    pub properties: LzmaProps,
    pub expected_size: usize,
    pub limits: ResourceLimits,
}

impl DecoderOptions {
    /// Options without limits.
    pub fn new(properties: LzmaProps, expected_size: usize) -> (options: Result<Self, Error>)
        ensures
            properties.contexts_ok() ==> options is Ok && options->Ok_0 == (DecoderOptions {
                properties: properties.with_dictionary(),
                expected_size,
                limits: ResourceLimits::no_limits(),
            }),
            !properties.contexts_ok() ==> options is Err && options->Err_0@
                == Fault::ContextOptions.report(),
    {
        match properties.validate() {
            Ok(properties) => Ok(
                DecoderOptions { properties, expected_size, limits: ResourceLimits::unlimited() },
            ),
            Err(error) => Err(error),
        }
    }

    /// Options without limits for a stream with the given property bytes.
    pub fn from_decoder_properties(properties: [u8; 5], expected_size: usize) -> (options: Result<
        Self,
        Error,
    >)
        ensures
            properties@[0] >= 225 ==> options is Err && options->Err_0@
                == Fault::PropertiesOption.report(),
            properties@[0] < 225 ==> options is Ok && options->Ok_0 == (DecoderOptions {
                properties: properties_of(properties@, 32, 32).with_dictionary(),
                expected_size,
                limits: ResourceLimits::no_limits(),
            }),
    {
        match LzmaProps::from_decoder_properties(properties) {
            Ok(props) => Self::new(props, expected_size),
            Err(error) => Err(error),
        }
    }
}

/// The bytes of working memory that the models take.
pub open spec fn model_workspace_size(props: LzmaProps) -> int {
    0x600 * pow2((props.lc + props.lp) as nat) as int + 0x20000
}

/// The bytes of working memory that encoding takes.
pub open spec fn encode_workspace_size(input_size: int, props: LzmaProps) -> int {
    model_workspace_size(props) + (input_size + 0x10000) * (usize::BITS as int / 8)
}

/// The working memory of the models.
pub fn model_workspace(properties: LzmaProps) -> (size: usize)
    requires
        properties.contexts_ok(),
    ensures
        size == model_workspace_size(properties),
        size <= 0x62_0000,
{
    let bits: usize = (properties.lc + properties.lp) as usize;
    proof {
        lemma_pow2_monotonic(bits as nat, 12);
        lemma2_to64();
    }
    let contexts: usize = power_of_two(bits) as usize;
    0x300 * contexts * 2 + 0x20000
}

/// The working memory for encoding, or `None` if it exceeds the address space.
pub fn encode_workspace(input_size: usize, properties: LzmaProps) -> (size: Option<usize>)
    requires
        properties.contexts_ok(),
    ensures
        match size {
            Some(size) => size == encode_workspace_size(input_size as int, properties),
            None => encode_workspace_size(input_size as int, properties) > usize::MAX,
        },
{
    let word: usize = usize::BITS as usize / 8;
    let models: usize = model_workspace(properties);
    assert((input_size + 0x10000) * word == input_size * word + 0x10000 * word)
        by (nonlinear_arith);
    assert(input_size * word >= 0) by (nonlinear_arith);
    let fixed: usize = 0x10000 * word;
    match models.checked_add(fixed) {
        None => None,
        Some(tables) => match input_size.checked_mul(word) {
            None => None,
            Some(chain) => tables.checked_add(chain),
        },
    }
}

} // verus!
