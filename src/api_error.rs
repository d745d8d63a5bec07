//! The status codes with which a call reverts.
use vstd::prelude::*;

verus! {

/// The code of the first user-defined status: codes from here on carry a
/// contract's own status.
pub const USER_ERROR_MIN: u32 = 65536;

/// A revert status: one of the engine's reserved statuses, or a contract's own.
#[derive(Clone, Copy, Debug, PartialEq, Eq, Structural)]
pub enum ApiError {
    NoneValue,
    MissingArgument,
    InvalidArgument,
    Deserialize,
    Read,
    ValueNotFound,
    ContractNotFound,
    GetKey,
    UnexpectedKeyVariant,
    UnexpectedCLValue,
    UnexpectedContractRefVariant,
    InvalidPurseName,
    InvalidPurse,
    Upgrade,
    Transfer,
    NoAccessRights,
    CLTypeMismatch,
    EarlyEndOfStream,
    Formatting,
    LeftOverBytes,
    OutOfMemory,
    MaxKeysLimit,
    DuplicateKey,
    PermissionDenied,
    MissingKey,
    ThresholdViolation,
    KeyManagementThreshold,
    DeploymentThreshold,
    InsufficientTotalWeight,
    InvalidSystemContract,
    FailedTransfer,
    InvalidContractVersion,
    NoSuchMethod,
    KeyNotFoundInAccount,
    GasLimit,
    User(u16),
}

/// The code of a status.
pub open spec fn api_error_code(e: ApiError) -> u32 {
    match e {
        ApiError::NoneValue => 1,
        ApiError::MissingArgument => 2,
        ApiError::InvalidArgument => 3,
        ApiError::Deserialize => 4,
        ApiError::Read => 5,
        ApiError::ValueNotFound => 6,
        ApiError::ContractNotFound => 7,
        ApiError::GetKey => 8,
        ApiError::UnexpectedKeyVariant => 9,
        ApiError::UnexpectedCLValue => 10,
        ApiError::UnexpectedContractRefVariant => 11,
        ApiError::InvalidPurseName => 12,
        ApiError::InvalidPurse => 13,
        ApiError::Upgrade => 14,
        ApiError::Transfer => 15,
        ApiError::NoAccessRights => 16,
        ApiError::CLTypeMismatch => 17,
        ApiError::EarlyEndOfStream => 18,
        ApiError::Formatting => 19,
        ApiError::LeftOverBytes => 20,
        ApiError::OutOfMemory => 21,
        ApiError::MaxKeysLimit => 22,
        ApiError::DuplicateKey => 23,
        ApiError::PermissionDenied => 24,
        ApiError::MissingKey => 25,
        ApiError::ThresholdViolation => 26,
        ApiError::KeyManagementThreshold => 27,
        ApiError::DeploymentThreshold => 28,
        ApiError::InsufficientTotalWeight => 29,
        ApiError::InvalidSystemContract => 30,
        ApiError::FailedTransfer => 31,
        ApiError::InvalidContractVersion => 32,
        ApiError::NoSuchMethod => 33,
        ApiError::KeyNotFoundInAccount => 34,
        ApiError::GasLimit => 35,
        ApiError::User(c) => (USER_ERROR_MIN + c) as u32,
    }
}

/// Whether a code stands for a status.
pub open spec fn code_known(code: u32) -> bool {
    (1 <= code && code <= 35) || (USER_ERROR_MIN <= code && code < USER_ERROR_MIN + 65536)
}

impl ApiError {
    /// The status's code.
    pub fn to_u32(&self) -> (r: u32)
        ensures
            r == api_error_code(*self),
    {
        match self {
            ApiError::NoneValue => 1,
            ApiError::MissingArgument => 2,
            ApiError::InvalidArgument => 3,
            ApiError::Deserialize => 4,
            ApiError::Read => 5,
            ApiError::ValueNotFound => 6,
            ApiError::ContractNotFound => 7,
            ApiError::GetKey => 8,
            ApiError::UnexpectedKeyVariant => 9,
            ApiError::UnexpectedCLValue => 10,
            ApiError::UnexpectedContractRefVariant => 11,
            ApiError::InvalidPurseName => 12,
            ApiError::InvalidPurse => 13,
            ApiError::Upgrade => 14,
            ApiError::Transfer => 15,
            ApiError::NoAccessRights => 16,
            ApiError::CLTypeMismatch => 17,
            ApiError::EarlyEndOfStream => 18,
            ApiError::Formatting => 19,
            ApiError::LeftOverBytes => 20,
            ApiError::OutOfMemory => 21,
            ApiError::MaxKeysLimit => 22,
            ApiError::DuplicateKey => 23,
            ApiError::PermissionDenied => 24,
            ApiError::MissingKey => 25,
            ApiError::ThresholdViolation => 26,
            ApiError::KeyManagementThreshold => 27,
            ApiError::DeploymentThreshold => 28,
            ApiError::InsufficientTotalWeight => 29,
            ApiError::InvalidSystemContract => 30,
            ApiError::FailedTransfer => 31,
            ApiError::InvalidContractVersion => 32,
            ApiError::NoSuchMethod => 33,
            ApiError::KeyNotFoundInAccount => 34,
            ApiError::GasLimit => 35,
            ApiError::User(c) => USER_ERROR_MIN + *c as u32,
        }
    }

    /// The status with code `code`, if any.
    pub fn from_u32(code: u32) -> (r: Option<ApiError>)
        ensures
            match r {
                Some(e) => api_error_code(e) == code,
                None => !code_known(code),
            },
    {
        if code >= USER_ERROR_MIN && code - USER_ERROR_MIN < 65536 {
            return Some(ApiError::User((code - USER_ERROR_MIN) as u16));
        }
        match code {
            1 => Some(ApiError::NoneValue),
            2 => Some(ApiError::MissingArgument),
            3 => Some(ApiError::InvalidArgument),
            4 => Some(ApiError::Deserialize),
            5 => Some(ApiError::Read),
            6 => Some(ApiError::ValueNotFound),
            7 => Some(ApiError::ContractNotFound),
            8 => Some(ApiError::GetKey),
            9 => Some(ApiError::UnexpectedKeyVariant),
            10 => Some(ApiError::UnexpectedCLValue),
            11 => Some(ApiError::UnexpectedContractRefVariant),
            12 => Some(ApiError::InvalidPurseName),
            13 => Some(ApiError::InvalidPurse),
            14 => Some(ApiError::Upgrade),
            15 => Some(ApiError::Transfer),
            16 => Some(ApiError::NoAccessRights),
            17 => Some(ApiError::CLTypeMismatch),
            18 => Some(ApiError::EarlyEndOfStream),
            19 => Some(ApiError::Formatting),
            20 => Some(ApiError::LeftOverBytes),
            21 => Some(ApiError::OutOfMemory),
            22 => Some(ApiError::MaxKeysLimit),
            23 => Some(ApiError::DuplicateKey),
            24 => Some(ApiError::PermissionDenied),
            25 => Some(ApiError::MissingKey),
            26 => Some(ApiError::ThresholdViolation),
            27 => Some(ApiError::KeyManagementThreshold),
            28 => Some(ApiError::DeploymentThreshold),
            29 => Some(ApiError::InsufficientTotalWeight),
            30 => Some(ApiError::InvalidSystemContract),
            31 => Some(ApiError::FailedTransfer),
            32 => Some(ApiError::InvalidContractVersion),
            33 => Some(ApiError::NoSuchMethod),
            34 => Some(ApiError::KeyNotFoundInAccount),
            35 => Some(ApiError::GasLimit),
            _ => None,
        }
    }
}

/// Every status is given back by its code.
pub proof fn lemma_api_error_round_trip(e: ApiError)
    ensures
        code_known(api_error_code(e)),
        forall|f: ApiError| api_error_code(f) == api_error_code(e) ==> f == e,
{
}

} // verus!
