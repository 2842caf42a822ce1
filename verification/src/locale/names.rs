//! The names of languages and countries in the Windows C runtime.

use crate::text::is_text;
use vstd::prelude::*;

verus! {

/// The Windows name of the language with an ISO 639-1 code.
pub open spec fn language_name(code: Seq<char>) -> Option<Seq<char>> {
    if code == "af"@ {
        Some("Afrikaans"@)
    } else if code == "sq"@ {
        Some("Albanian"@)
    } else if code == "ar"@ {
        Some("Arabic"@)
    } else if code == "hy"@ {
        Some("Armenian"@)
    } else if code == "eu"@ {
        Some("Basque"@)
    } else if code == "be"@ {
        Some("Belarusian"@)
    } else if code == "bg"@ {
        Some("Bulgarian"@)
    } else if code == "ca"@ {
        Some("Catalan"@)
    } else if code == "zh"@ {
        Some("Chinese"@)
    } else if code == "hr"@ {
        Some("Croatian"@)
    } else if code == "cs"@ {
        Some("Czech"@)
    } else if code == "da"@ {
        Some("Danish"@)
    } else if code == "nl"@ {
        Some("Dutch"@)
    } else if code == "en"@ {
        Some("English"@)
    } else if code == "et"@ {
        Some("Estonian"@)
    } else if code == "fo"@ {
        Some("Faroese"@)
    } else if code == "fa"@ {
        Some("Persian"@)
    } else if code == "fi"@ {
        Some("Finnish"@)
    } else if code == "fr"@ {
        Some("French"@)
    } else if code == "gl"@ {
        Some("Galician"@)
    } else if code == "ka"@ {
        Some("Georgian"@)
    } else if code == "de"@ {
        Some("German"@)
    } else if code == "el"@ {
        Some("Greek"@)
    } else if code == "he"@ {
        Some("Hebrew"@)
    } else if code == "hi"@ {
        Some("Hindi"@)
    } else if code == "hu"@ {
        Some("Hungarian"@)
    } else if code == "is"@ {
        Some("Icelandic"@)
    } else if code == "id"@ {
        Some("Indonesian"@)
    } else if code == "it"@ {
        Some("Italian"@)
    } else if code == "ja"@ {
        Some("Japanese"@)
    } else if code == "kk"@ {
        Some("Kazakh"@)
    } else if code == "ko"@ {
        Some("Korean"@)
    } else if code == "lv"@ {
        Some("Latvian"@)
    } else if code == "lt"@ {
        Some("Lithuanian"@)
    } else if code == "mk"@ {
        Some("Macedonian"@)
    } else if code == "ms"@ {
        Some("Malay"@)
    } else if code == "mt"@ {
        Some("Maltese"@)
    } else if code == "nb"@ || code == "nn"@ || code == "no"@ {
        Some("Norwegian"@)
    } else if code == "pl"@ {
        Some("Polish"@)
    } else if code == "pt"@ {
        Some("Portuguese"@)
    } else if code == "ro"@ {
        Some("Romanian"@)
    } else if code == "ru"@ {
        Some("Russian"@)
    } else if code == "sr"@ {
        Some("Serbian"@)
    } else if code == "sk"@ {
        Some("Slovak"@)
    } else if code == "sl"@ {
        Some("Slovenian"@)
    } else if code == "es"@ {
        Some("Spanish"@)
    } else if code == "sv"@ {
        Some("Swedish"@)
    } else if code == "th"@ {
        Some("Thai"@)
    } else if code == "tr"@ {
        Some("Turkish"@)
    } else if code == "uk"@ {
        Some("Ukrainian"@)
    } else if code == "vi"@ {
        Some("Vietnamese"@)
    } else {
        None
    }
}

/// The Windows name of the country with an ISO 3166-1 alpha-2 code.
pub open spec fn country_name(code: Seq<char>) -> Option<Seq<char>> {
    if code == "AR"@ {
        Some("Argentina"@)
    } else if code == "AT"@ {
        Some("Austria"@)
    } else if code == "AU"@ {
        Some("Australia"@)
    } else if code == "BE"@ {
        Some("Belgium"@)
    } else if code == "BG"@ {
        Some("Bulgaria"@)
    } else if code == "BR"@ {
        Some("Brazil"@)
    } else if code == "BY"@ {
        Some("Belarus"@)
    } else if code == "CA"@ {
        Some("Canada"@)
    } else if code == "CH"@ {
        Some("Switzerland"@)
    } else if code == "CL"@ {
        Some("Chile"@)
    } else if code == "CN"@ {
        Some("China"@)
    } else if code == "CO"@ {
        Some("Colombia"@)
    } else if code == "CZ"@ {
        Some("Czech Republic"@)
    } else if code == "DE"@ {
        Some("Germany"@)
    } else if code == "DK"@ {
        Some("Denmark"@)
    } else if code == "EE"@ {
        Some("Estonia"@)
    } else if code == "ES"@ {
        Some("Spain"@)
    } else if code == "FI"@ {
        Some("Finland"@)
    } else if code == "FR"@ {
        Some("France"@)
    } else if code == "GB"@ {
        Some("United Kingdom"@)
    } else if code == "GR"@ {
        Some("Greece"@)
    } else if code == "HR"@ {
        Some("Croatia"@)
    } else if code == "HU"@ {
        Some("Hungary"@)
    } else if code == "ID"@ {
        Some("Indonesia"@)
    } else if code == "IE"@ {
        Some("Ireland"@)
    } else if code == "IL"@ {
        Some("Israel"@)
    } else if code == "IN"@ {
        Some("India"@)
    } else if code == "IS"@ {
        Some("Iceland"@)
    } else if code == "IT"@ {
        Some("Italy"@)
    } else if code == "JP"@ {
        Some("Japan"@)
    } else if code == "KR"@ {
        Some("Korea"@)
    } else if code == "KZ"@ {
        Some("Kazakhstan"@)
    } else if code == "LT"@ {
        Some("Lithuania"@)
    } else if code == "LV"@ {
        Some("Latvia"@)
    } else if code == "MX"@ {
        Some("Mexico"@)
    } else if code == "MY"@ {
        Some("Malaysia"@)
    } else if code == "NL"@ {
        Some("Netherlands"@)
    } else if code == "NO"@ {
        Some("Norway"@)
    } else if code == "NZ"@ {
        Some("New Zealand"@)
    } else if code == "PL"@ {
        Some("Poland"@)
    } else if code == "PT"@ {
        Some("Portugal"@)
    } else if code == "RO"@ {
        Some("Romania"@)
    } else if code == "RU"@ {
        Some("Russia"@)
    } else if code == "SE"@ {
        Some("Sweden"@)
    } else if code == "SI"@ {
        Some("Slovenia"@)
    } else if code == "SK"@ {
        Some("Slovakia"@)
    } else if code == "TH"@ {
        Some("Thailand"@)
    } else if code == "TR"@ {
        Some("Turkey"@)
    } else if code == "TW"@ {
        Some("Taiwan"@)
    } else if code == "UA"@ {
        Some("Ukraine"@)
    } else if code == "US"@ {
        Some("United States"@)
    } else if code == "VN"@ {
        Some("Vietnam"@)
    } else if code == "ZA"@ {
        Some("South Africa"@)
    } else {
        None
    }
}

/// Map an ISO 639-1 language code to the Windows/msvcrt English language name.
pub fn windows_language(code: &[char]) -> (r: Option<&'static str>)
    ensures
        language_name(code@) == (match r {
            Some(name) => Some(name@),
            None => None,
        }),
{
    if is_text(code, "af") {
        Some("Afrikaans")
    } else if is_text(code, "sq") {
        Some("Albanian")
    } else if is_text(code, "ar") {
        Some("Arabic")
    } else if is_text(code, "hy") {
        Some("Armenian")
    } else if is_text(code, "eu") {
        Some("Basque")
    } else if is_text(code, "be") {
        Some("Belarusian")
    } else if is_text(code, "bg") {
        Some("Bulgarian")
    } else if is_text(code, "ca") {
        Some("Catalan")
    } else if is_text(code, "zh") {
        Some("Chinese")
    } else if is_text(code, "hr") {
        Some("Croatian")
    } else if is_text(code, "cs") {
        Some("Czech")
    } else if is_text(code, "da") {
        Some("Danish")
    } else if is_text(code, "nl") {
        Some("Dutch")
    } else if is_text(code, "en") {
        Some("English")
    } else if is_text(code, "et") {
        Some("Estonian")
    } else if is_text(code, "fo") {
        Some("Faroese")
    } else if is_text(code, "fa") {
        Some("Persian")
    } else if is_text(code, "fi") {
        Some("Finnish")
    } else if is_text(code, "fr") {
        Some("French")
    } else if is_text(code, "gl") {
        Some("Galician")
    } else if is_text(code, "ka") {
        Some("Georgian")
    } else if is_text(code, "de") {
        Some("German")
    } else if is_text(code, "el") {
        Some("Greek")
    } else if is_text(code, "he") {
        Some("Hebrew")
    } else if is_text(code, "hi") {
        Some("Hindi")
    } else if is_text(code, "hu") {
        Some("Hungarian")
    } else if is_text(code, "is") {
        Some("Icelandic")
    } else if is_text(code, "id") {
        Some("Indonesian")
    } else if is_text(code, "it") {
        Some("Italian")
    } else if is_text(code, "ja") {
        Some("Japanese")
    } else if is_text(code, "kk") {
        Some("Kazakh")
    } else if is_text(code, "ko") {
        Some("Korean")
    } else if is_text(code, "lv") {
        Some("Latvian")
    } else if is_text(code, "lt") {
        Some("Lithuanian")
    } else if is_text(code, "mk") {
        Some("Macedonian")
    } else if is_text(code, "ms") {
        Some("Malay")
    } else if is_text(code, "mt") {
        Some("Maltese")
    } else if is_text(code, "nb") || is_text(code, "nn") || is_text(code, "no") {
        Some("Norwegian")
    } else if is_text(code, "pl") {
        Some("Polish")
    } else if is_text(code, "pt") {
        Some("Portuguese")
    } else if is_text(code, "ro") {
        Some("Romanian")
    } else if is_text(code, "ru") {
        Some("Russian")
    } else if is_text(code, "sr") {
        Some("Serbian")
    } else if is_text(code, "sk") {
        Some("Slovak")
    } else if is_text(code, "sl") {
        Some("Slovenian")
    } else if is_text(code, "es") {
        Some("Spanish")
    } else if is_text(code, "sv") {
        Some("Swedish")
    } else if is_text(code, "th") {
        Some("Thai")
    } else if is_text(code, "tr") {
        Some("Turkish")
    } else if is_text(code, "uk") {
        Some("Ukrainian")
    } else if is_text(code, "vi") {
        Some("Vietnamese")
    } else {
        None
    }
}

/// Map an ISO 3166-1 alpha-2 country code to the Windows/msvcrt English country name.
pub fn windows_country(code: &[char]) -> (r: Option<&'static str>)
    ensures
        country_name(code@) == (match r {
            Some(name) => Some(name@),
            None => None,
        }),
{
    if is_text(code, "AR") {
        Some("Argentina")
    } else if is_text(code, "AT") {
        Some("Austria")
    } else if is_text(code, "AU") {
        Some("Australia")
    } else if is_text(code, "BE") {
        Some("Belgium")
    } else if is_text(code, "BG") {
        Some("Bulgaria")
    } else if is_text(code, "BR") {
        Some("Brazil")
    } else if is_text(code, "BY") {
        Some("Belarus")
    } else if is_text(code, "CA") {
        Some("Canada")
    } else if is_text(code, "CH") {
        Some("Switzerland")
    } else if is_text(code, "CL") {
        Some("Chile")
    } else if is_text(code, "CN") {
        Some("China")
    } else if is_text(code, "CO") {
        Some("Colombia")
    } else if is_text(code, "CZ") {
        Some("Czech Republic")
    } else if is_text(code, "DE") {
        Some("Germany")
    } else if is_text(code, "DK") {
        Some("Denmark")
    } else if is_text(code, "EE") {
        Some("Estonia")
    } else if is_text(code, "ES") {
        Some("Spain")
    } else if is_text(code, "FI") {
        Some("Finland")
    } else if is_text(code, "FR") {
        Some("France")
    } else if is_text(code, "GB") {
        Some("United Kingdom")
    } else if is_text(code, "GR") {
        Some("Greece")
    } else if is_text(code, "HR") {
        Some("Croatia")
    } else if is_text(code, "HU") {
        Some("Hungary")
    } else if is_text(code, "ID") {
        Some("Indonesia")
    } else if is_text(code, "IE") {
        Some("Ireland")
    } else if is_text(code, "IL") {
        Some("Israel")
    } else if is_text(code, "IN") {
        Some("India")
    } else if is_text(code, "IS") {
        Some("Iceland")
    } else if is_text(code, "IT") {
        Some("Italy")
    } else if is_text(code, "JP") {
        Some("Japan")
    } else if is_text(code, "KR") {
        Some("Korea")
    } else if is_text(code, "KZ") {
        Some("Kazakhstan")
    } else if is_text(code, "LT") {
        Some("Lithuania")
    } else if is_text(code, "LV") {
        Some("Latvia")
    } else if is_text(code, "MX") {
        Some("Mexico")
    } else if is_text(code, "MY") {
        Some("Malaysia")
    } else if is_text(code, "NL") {
        Some("Netherlands")
    } else if is_text(code, "NO") {
        Some("Norway")
    } else if is_text(code, "NZ") {
        Some("New Zealand")
    } else if is_text(code, "PL") {
        Some("Poland")
    } else if is_text(code, "PT") {
        Some("Portugal")
    } else if is_text(code, "RO") {
        Some("Romania")
    } else if is_text(code, "RU") {
        Some("Russia")
    } else if is_text(code, "SE") {
        Some("Sweden")
    } else if is_text(code, "SI") {
        Some("Slovenia")
    } else if is_text(code, "SK") {
        Some("Slovakia")
    } else if is_text(code, "TH") {
        Some("Thailand")
    } else if is_text(code, "TR") {
        Some("Turkey")
    } else if is_text(code, "TW") {
        Some("Taiwan")
    } else if is_text(code, "UA") {
        Some("Ukraine")
    } else if is_text(code, "US") {
        Some("United States")
    } else if is_text(code, "VN") {
        Some("Vietnam")
    } else if is_text(code, "ZA") {
        Some("South Africa")
    } else {
        None
    }
}

/// Which code has which name: a name is given for exactly these codes.
pub proof fn law_language_names(code: Seq<char>)
    ensures
        language_name(code) matches Some(name) ==> {
            ||| name == "Afrikaans"@ && (code == "af"@)
            ||| name == "Albanian"@ && (code == "sq"@)
            ||| name == "Arabic"@ && (code == "ar"@)
            ||| name == "Armenian"@ && (code == "hy"@)
            ||| name == "Basque"@ && (code == "eu"@)
            ||| name == "Belarusian"@ && (code == "be"@)
            ||| name == "Bulgarian"@ && (code == "bg"@)
            ||| name == "Catalan"@ && (code == "ca"@)
            ||| name == "Chinese"@ && (code == "zh"@)
            ||| name == "Croatian"@ && (code == "hr"@)
            ||| name == "Czech"@ && (code == "cs"@)
            ||| name == "Danish"@ && (code == "da"@)
            ||| name == "Dutch"@ && (code == "nl"@)
            ||| name == "English"@ && (code == "en"@)
            ||| name == "Estonian"@ && (code == "et"@)
            ||| name == "Faroese"@ && (code == "fo"@)
            ||| name == "Persian"@ && (code == "fa"@)
            ||| name == "Finnish"@ && (code == "fi"@)
            ||| name == "French"@ && (code == "fr"@)
            ||| name == "Galician"@ && (code == "gl"@)
            ||| name == "Georgian"@ && (code == "ka"@)
            ||| name == "German"@ && (code == "de"@)
            ||| name == "Greek"@ && (code == "el"@)
            ||| name == "Hebrew"@ && (code == "he"@)
            ||| name == "Hindi"@ && (code == "hi"@)
            ||| name == "Hungarian"@ && (code == "hu"@)
            ||| name == "Icelandic"@ && (code == "is"@)
            ||| name == "Indonesian"@ && (code == "id"@)
            ||| name == "Italian"@ && (code == "it"@)
            ||| name == "Japanese"@ && (code == "ja"@)
            ||| name == "Kazakh"@ && (code == "kk"@)
            ||| name == "Korean"@ && (code == "ko"@)
            ||| name == "Latvian"@ && (code == "lv"@)
            ||| name == "Lithuanian"@ && (code == "lt"@)
            ||| name == "Macedonian"@ && (code == "mk"@)
            ||| name == "Malay"@ && (code == "ms"@)
            ||| name == "Maltese"@ && (code == "mt"@)
            ||| name == "Norwegian"@ && (code == "nb"@ || code == "nn"@ || code == "no"@)
            ||| name == "Polish"@ && (code == "pl"@)
            ||| name == "Portuguese"@ && (code == "pt"@)
            ||| name == "Romanian"@ && (code == "ro"@)
            ||| name == "Russian"@ && (code == "ru"@)
            ||| name == "Serbian"@ && (code == "sr"@)
            ||| name == "Slovak"@ && (code == "sk"@)
            ||| name == "Slovenian"@ && (code == "sl"@)
            ||| name == "Spanish"@ && (code == "es"@)
            ||| name == "Swedish"@ && (code == "sv"@)
            ||| name == "Thai"@ && (code == "th"@)
            ||| name == "Turkish"@ && (code == "tr"@)
            ||| name == "Ukrainian"@ && (code == "uk"@)
            ||| name == "Vietnamese"@ && (code == "vi"@)
        },
        language_name("af"@) is Some,
        language_name("sq"@) is Some,
        language_name("ar"@) is Some,
        language_name("hy"@) is Some,
        language_name("eu"@) is Some,
        language_name("be"@) is Some,
        language_name("bg"@) is Some,
        language_name("ca"@) is Some,
        language_name("zh"@) is Some,
        language_name("hr"@) is Some,
        language_name("cs"@) is Some,
        language_name("da"@) is Some,
        language_name("nl"@) is Some,
        language_name("en"@) is Some,
        language_name("et"@) is Some,
        language_name("fo"@) is Some,
        language_name("fa"@) is Some,
        language_name("fi"@) is Some,
        language_name("fr"@) is Some,
        language_name("gl"@) is Some,
        language_name("ka"@) is Some,
        language_name("de"@) is Some,
        language_name("el"@) is Some,
        language_name("he"@) is Some,
        language_name("hi"@) is Some,
        language_name("hu"@) is Some,
        language_name("is"@) is Some,
        language_name("id"@) is Some,
        language_name("it"@) is Some,
        language_name("ja"@) is Some,
        language_name("kk"@) is Some,
        language_name("ko"@) is Some,
        language_name("lv"@) is Some,
        language_name("lt"@) is Some,
        language_name("mk"@) is Some,
        language_name("ms"@) is Some,
        language_name("mt"@) is Some,
        language_name("nb"@) is Some,
        language_name("nn"@) is Some,
        language_name("no"@) is Some,
        language_name("pl"@) is Some,
        language_name("pt"@) is Some,
        language_name("ro"@) is Some,
        language_name("ru"@) is Some,
        language_name("sr"@) is Some,
        language_name("sk"@) is Some,
        language_name("sl"@) is Some,
        language_name("es"@) is Some,
        language_name("sv"@) is Some,
        language_name("th"@) is Some,
        language_name("tr"@) is Some,
        language_name("uk"@) is Some,
        language_name("vi"@) is Some,
{
}

/// Which code has which name: a name is given for exactly these codes.
pub proof fn law_country_names(code: Seq<char>)
    ensures
        country_name(code) matches Some(name) ==> {
            ||| name == "Argentina"@ && (code == "AR"@)
            ||| name == "Austria"@ && (code == "AT"@)
            ||| name == "Australia"@ && (code == "AU"@)
            ||| name == "Belgium"@ && (code == "BE"@)
            ||| name == "Bulgaria"@ && (code == "BG"@)
            ||| name == "Brazil"@ && (code == "BR"@)
            ||| name == "Belarus"@ && (code == "BY"@)
            ||| name == "Canada"@ && (code == "CA"@)
            ||| name == "Switzerland"@ && (code == "CH"@)
            ||| name == "Chile"@ && (code == "CL"@)
            ||| name == "China"@ && (code == "CN"@)
            ||| name == "Colombia"@ && (code == "CO"@)
            ||| name == "Czech Republic"@ && (code == "CZ"@)
            ||| name == "Germany"@ && (code == "DE"@)
            ||| name == "Denmark"@ && (code == "DK"@)
            ||| name == "Estonia"@ && (code == "EE"@)
            ||| name == "Spain"@ && (code == "ES"@)
            ||| name == "Finland"@ && (code == "FI"@)
            ||| name == "France"@ && (code == "FR"@)
            ||| name == "United Kingdom"@ && (code == "GB"@)
            ||| name == "Greece"@ && (code == "GR"@)
            ||| name == "Croatia"@ && (code == "HR"@)
            ||| name == "Hungary"@ && (code == "HU"@)
            ||| name == "Indonesia"@ && (code == "ID"@)
            ||| name == "Ireland"@ && (code == "IE"@)
            ||| name == "Israel"@ && (code == "IL"@)
            ||| name == "India"@ && (code == "IN"@)
            ||| name == "Iceland"@ && (code == "IS"@)
            ||| name == "Italy"@ && (code == "IT"@)
            ||| name == "Japan"@ && (code == "JP"@)
            ||| name == "Korea"@ && (code == "KR"@)
            ||| name == "Kazakhstan"@ && (code == "KZ"@)
            ||| name == "Lithuania"@ && (code == "LT"@)
            ||| name == "Latvia"@ && (code == "LV"@)
            ||| name == "Mexico"@ && (code == "MX"@)
            ||| name == "Malaysia"@ && (code == "MY"@)
            ||| name == "Netherlands"@ && (code == "NL"@)
            ||| name == "Norway"@ && (code == "NO"@)
            ||| name == "New Zealand"@ && (code == "NZ"@)
            ||| name == "Poland"@ && (code == "PL"@)
            ||| name == "Portugal"@ && (code == "PT"@)
            ||| name == "Romania"@ && (code == "RO"@)
            ||| name == "Russia"@ && (code == "RU"@)
            ||| name == "Sweden"@ && (code == "SE"@)
            ||| name == "Slovenia"@ && (code == "SI"@)
            ||| name == "Slovakia"@ && (code == "SK"@)
            ||| name == "Thailand"@ && (code == "TH"@)
            ||| name == "Turkey"@ && (code == "TR"@)
            ||| name == "Taiwan"@ && (code == "TW"@)
            ||| name == "Ukraine"@ && (code == "UA"@)
            ||| name == "United States"@ && (code == "US"@)
            ||| name == "Vietnam"@ && (code == "VN"@)
            ||| name == "South Africa"@ && (code == "ZA"@)
        },
        country_name("AR"@) is Some,
        country_name("AT"@) is Some,
        country_name("AU"@) is Some,
        country_name("BE"@) is Some,
        country_name("BG"@) is Some,
        country_name("BR"@) is Some,
        country_name("BY"@) is Some,
        country_name("CA"@) is Some,
        country_name("CH"@) is Some,
        country_name("CL"@) is Some,
        country_name("CN"@) is Some,
        country_name("CO"@) is Some,
        country_name("CZ"@) is Some,
        country_name("DE"@) is Some,
        country_name("DK"@) is Some,
        country_name("EE"@) is Some,
        country_name("ES"@) is Some,
        country_name("FI"@) is Some,
        country_name("FR"@) is Some,
        country_name("GB"@) is Some,
        country_name("GR"@) is Some,
        country_name("HR"@) is Some,
        country_name("HU"@) is Some,
        country_name("ID"@) is Some,
        country_name("IE"@) is Some,
        country_name("IL"@) is Some,
        country_name("IN"@) is Some,
        country_name("IS"@) is Some,
        country_name("IT"@) is Some,
        country_name("JP"@) is Some,
        country_name("KR"@) is Some,
        country_name("KZ"@) is Some,
        country_name("LT"@) is Some,
        country_name("LV"@) is Some,
        country_name("MX"@) is Some,
        country_name("MY"@) is Some,
        country_name("NL"@) is Some,
        country_name("NO"@) is Some,
        country_name("NZ"@) is Some,
        country_name("PL"@) is Some,
        country_name("PT"@) is Some,
        country_name("RO"@) is Some,
        country_name("RU"@) is Some,
        country_name("SE"@) is Some,
        country_name("SI"@) is Some,
        country_name("SK"@) is Some,
        country_name("TH"@) is Some,
        country_name("TR"@) is Some,
        country_name("TW"@) is Some,
        country_name("UA"@) is Some,
        country_name("US"@) is Some,
        country_name("VN"@) is Some,
        country_name("ZA"@) is Some,
{
}

} // verus!
