//! What the device reports: status codes and row counts.
use vstd::prelude::*;

use crate::execution;
use crate::execution::Error;
use crate::text;
use crate::text::decimal_text;

verus! {

/// A call of the device runtime that failed.
#[derive(Debug, Clone, Copy, PartialEq, Eq)]
pub struct DeviceError {
    pub operation: &'static str,
    pub code: i32,
}

/// A number with its sign, in decimal.
pub open spec fn signed_decimal(n: int) -> Seq<char> {
    if n < 0 {
        "-"@ + text::decimal((-n) as nat)
    } else {
        text::decimal(n as nat)
    }
}

impl DeviceError {
    /// What the error says.
    pub open spec fn text(self) -> Seq<char> {
        self.operation@ + " failed with CUDA error "@ + signed_decimal(self.code as int)
    }

    pub fn message(&self) -> (message: String)
        ensures
            message@ == self.text(),
    {
        let mut message = self.operation.to_owned();
        message.append(" failed with CUDA error ");
        let wide: i64 = self.code as i64;
        if wide < 0 {
            message.append("-");
            let digits = decimal_text((-wide) as usize);
            message.append(digits.as_str());
        } else {
            let digits = decimal_text(wide as usize);
            message.append(digits.as_str());
        }
        assert(message@ =~= self.text());
        message
    }
}

/// What a status code means: zero is success.
pub fn cuda_result(operation: &'static str, code: i32) -> (result: Result<(), DeviceError>)
    ensures
        match result {
            Ok(_) => code == 0,
            Err(error) => code != 0 && error == (DeviceError { operation, code }),
        },
{
    if code == 0 {
        Ok(())
    } else {
        Err(DeviceError { operation, code })
    }
}

/// The number of rows that the device counted, if they can be addressed.
pub fn counted_rows(count: u64) -> (result: Result<usize, Error>)
    ensures
        execution::fails_as(
            result,
            if count <= usize::MAX {
                None
            } else {
                Some(execution::ErrorView::OutputTooLarge(count as nat))
            },
        ),
        result matches Ok(rows) ==> rows == count,
{
    if count <= usize::MAX as u64 {
        Ok(count as usize)
    } else {
        Err(Error::OutputTooLarge(count))
    }
}

} // verus!
