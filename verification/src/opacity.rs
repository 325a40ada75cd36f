//! The text of the `fill-opacity` of each alpha value.
//!
//! The opacity of alpha `a` is `a / 255`, taken as a single-precision
//! number and written with the fewest decimal digits that still tell it
//! from every other single-precision number. There are 256 such texts and
//! they are listed here, so that no floating-point arithmetic is needed to
//! write one.

use vstd::prelude::*;

verus! {

/// The opacity text of `alpha`.
pub open spec fn opacity_text(alpha: u8) -> Seq<char> {
    match alpha {
        0 => "0"@,
        1 => "0.003921569"@,
        2 => "0.007843138"@,
        3 => "0.011764706"@,
        4 => "0.015686275"@,
        5 => "0.019607844"@,
        6 => "0.023529412"@,
        7 => "0.02745098"@,
        8 => "0.03137255"@,
        9 => "0.03529412"@,
        10 => "0.039215688"@,
        11 => "0.043137256"@,
        12 => "0.047058824"@,
        13 => "0.050980393"@,
        14 => "0.05490196"@,
        15 => "0.05882353"@,
        16 => "0.0627451"@,
        17 => "0.06666667"@,
        18 => "0.07058824"@,
        19 => "0.07450981"@,
        20 => "0.078431375"@,
        21 => "0.08235294"@,
        22 => "0.08627451"@,
        23 => "0.09019608"@,
        24 => "0.09411765"@,
        25 => "0.09803922"@,
        26 => "0.101960786"@,
        27 => "0.105882354"@,
        28 => "0.10980392"@,
        29 => "0.11372549"@,
        30 => "0.11764706"@,
        31 => "0.12156863"@,
        32 => "0.1254902"@,
        33 => "0.12941177"@,
        34 => "0.13333334"@,
        35 => "0.13725491"@,
        36 => "0.14117648"@,
        37 => "0.14509805"@,
        38 => "0.14901961"@,
        39 => "0.15294118"@,
        40 => "0.15686275"@,
        41 => "0.16078432"@,
        42 => "0.16470589"@,
        43 => "0.16862746"@,
        44 => "0.17254902"@,
        45 => "0.1764706"@,
        46 => "0.18039216"@,
        47 => "0.18431373"@,
        48 => "0.1882353"@,
        49 => "0.19215687"@,
        50 => "0.19607843"@,
        51 => "0.2"@,
        52 => "0.20392157"@,
        53 => "0.20784314"@,
        54 => "0.21176471"@,
        55 => "0.21568628"@,
        56 => "0.21960784"@,
        57 => "0.22352941"@,
        58 => "0.22745098"@,
        59 => "0.23137255"@,
        60 => "0.23529412"@,
        61 => "0.23921569"@,
        62 => "0.24313726"@,
        63 => "0.24705882"@,
        64 => "0.2509804"@,
        65 => "0.25490198"@,
        66 => "0.25882354"@,
        67 => "0.2627451"@,
        68 => "0.26666668"@,
        69 => "0.27058825"@,
        70 => "0.27450982"@,
        71 => "0.2784314"@,
        72 => "0.28235295"@,
        73 => "0.28627452"@,
        74 => "0.2901961"@,
        75 => "0.29411766"@,
        76 => "0.29803923"@,
        77 => "0.3019608"@,
        78 => "0.30588236"@,
        79 => "0.30980393"@,
        80 => "0.3137255"@,
        81 => "0.31764707"@,
        82 => "0.32156864"@,
        83 => "0.3254902"@,
        84 => "0.32941177"@,
        85 => "0.33333334"@,
        86 => "0.3372549"@,
        87 => "0.34117648"@,
        88 => "0.34509805"@,
        89 => "0.34901962"@,
        90 => "0.3529412"@,
        91 => "0.35686275"@,
        92 => "0.36078432"@,
        93 => "0.3647059"@,
        94 => "0.36862746"@,
        95 => "0.37254903"@,
        96 => "0.3764706"@,
        97 => "0.38039216"@,
        98 => "0.38431373"@,
        99 => "0.3882353"@,
        100 => "0.39215687"@,
        101 => "0.39607844"@,
        102 => "0.4"@,
        103 => "0.40392157"@,
        104 => "0.40784314"@,
        105 => "0.4117647"@,
        106 => "0.41568628"@,
        107 => "0.41960785"@,
        108 => "0.42352942"@,
        109 => "0.42745098"@,
        110 => "0.43137255"@,
        111 => "0.43529412"@,
        112 => "0.4392157"@,
        113 => "0.44313726"@,
        114 => "0.44705883"@,
        115 => "0.4509804"@,
        116 => "0.45490196"@,
        117 => "0.45882353"@,
        118 => "0.4627451"@,
        119 => "0.46666667"@,
        120 => "0.47058824"@,
        121 => "0.4745098"@,
        122 => "0.47843137"@,
        123 => "0.48235294"@,
        124 => "0.4862745"@,
        125 => "0.49019608"@,
        126 => "0.49411765"@,
        127 => "0.49803922"@,
        128 => "0.5019608"@,
        129 => "0.5058824"@,
        130 => "0.50980395"@,
        131 => "0.5137255"@,
        132 => "0.5176471"@,
        133 => "0.52156866"@,
        134 => "0.5254902"@,
        135 => "0.5294118"@,
        136 => "0.53333336"@,
        137 => "0.5372549"@,
        138 => "0.5411765"@,
        139 => "0.54509807"@,
        140 => "0.54901963"@,
        141 => "0.5529412"@,
        142 => "0.5568628"@,
        143 => "0.56078434"@,
        144 => "0.5647059"@,
        145 => "0.5686275"@,
        146 => "0.57254905"@,
        147 => "0.5764706"@,
        148 => "0.5803922"@,
        149 => "0.58431375"@,
        150 => "0.5882353"@,
        151 => "0.5921569"@,
        152 => "0.59607846"@,
        153 => "0.6"@,
        154 => "0.6039216"@,
        155 => "0.60784316"@,
        156 => "0.6117647"@,
        157 => "0.6156863"@,
        158 => "0.61960787"@,
        159 => "0.62352943"@,
        160 => "0.627451"@,
        161 => "0.6313726"@,
        162 => "0.63529414"@,
        163 => "0.6392157"@,
        164 => "0.6431373"@,
        165 => "0.64705884"@,
        166 => "0.6509804"@,
        167 => "0.654902"@,
        168 => "0.65882355"@,
        169 => "0.6627451"@,
        170 => "0.6666667"@,
        171 => "0.67058825"@,
        172 => "0.6745098"@,
        173 => "0.6784314"@,
        174 => "0.68235296"@,
        175 => "0.6862745"@,
        176 => "0.6901961"@,
        177 => "0.69411767"@,
        178 => "0.69803923"@,
        179 => "0.7019608"@,
        180 => "0.7058824"@,
        181 => "0.70980394"@,
        182 => "0.7137255"@,
        183 => "0.7176471"@,
        184 => "0.72156864"@,
        185 => "0.7254902"@,
        186 => "0.7294118"@,
        187 => "0.73333335"@,
        188 => "0.7372549"@,
        189 => "0.7411765"@,
        190 => "0.74509805"@,
        191 => "0.7490196"@,
        192 => "0.7529412"@,
        193 => "0.75686276"@,
        194 => "0.7607843"@,
        195 => "0.7647059"@,
        196 => "0.76862746"@,
        197 => "0.77254903"@,
        198 => "0.7764706"@,
        199 => "0.78039217"@,
        200 => "0.78431374"@,
        201 => "0.7882353"@,
        202 => "0.7921569"@,
        203 => "0.79607844"@,
        204 => "0.8"@,
        205 => "0.8039216"@,
        206 => "0.80784315"@,
        207 => "0.8117647"@,
        208 => "0.8156863"@,
        209 => "0.81960785"@,
        210 => "0.8235294"@,
        211 => "0.827451"@,
        212 => "0.83137256"@,
        213 => "0.8352941"@,
        214 => "0.8392157"@,
        215 => "0.84313726"@,
        216 => "0.84705883"@,
        217 => "0.8509804"@,
        218 => "0.85490197"@,
        219 => "0.85882354"@,
        220 => "0.8627451"@,
        221 => "0.8666667"@,
        222 => "0.87058824"@,
        223 => "0.8745098"@,
        224 => "0.8784314"@,
        225 => "0.88235295"@,
        226 => "0.8862745"@,
        227 => "0.8901961"@,
        228 => "0.89411765"@,
        229 => "0.8980392"@,
        230 => "0.9019608"@,
        231 => "0.90588236"@,
        232 => "0.9098039"@,
        233 => "0.9137255"@,
        234 => "0.91764706"@,
        235 => "0.92156863"@,
        236 => "0.9254902"@,
        237 => "0.92941177"@,
        238 => "0.93333334"@,
        239 => "0.9372549"@,
        240 => "0.9411765"@,
        241 => "0.94509804"@,
        242 => "0.9490196"@,
        243 => "0.9529412"@,
        244 => "0.95686275"@,
        245 => "0.9607843"@,
        246 => "0.9647059"@,
        247 => "0.96862745"@,
        248 => "0.972549"@,
        249 => "0.9764706"@,
        250 => "0.98039216"@,
        251 => "0.9843137"@,
        252 => "0.9882353"@,
        253 => "0.99215686"@,
        254 => "0.99607843"@,
        _ => "1"@,
    }
}

/// Looks up the opacity text of `alpha`.
pub fn opacity_str(alpha: u8) -> (text: &'static str)
    ensures
        text@ == opacity_text(alpha),
{
    match alpha {
        0 => "0",
        1 => "0.003921569",
        2 => "0.007843138",
        3 => "0.011764706",
        4 => "0.015686275",
        5 => "0.019607844",
        6 => "0.023529412",
        7 => "0.02745098",
        8 => "0.03137255",
        9 => "0.03529412",
        10 => "0.039215688",
        11 => "0.043137256",
        12 => "0.047058824",
        13 => "0.050980393",
        14 => "0.05490196",
        15 => "0.05882353",
        16 => "0.0627451",
        17 => "0.06666667",
        18 => "0.07058824",
        19 => "0.07450981",
        20 => "0.078431375",
        21 => "0.08235294",
        22 => "0.08627451",
        23 => "0.09019608",
        24 => "0.09411765",
        25 => "0.09803922",
        26 => "0.101960786",
        27 => "0.105882354",
        28 => "0.10980392",
        29 => "0.11372549",
        30 => "0.11764706",
        31 => "0.12156863",
        32 => "0.1254902",
        33 => "0.12941177",
        34 => "0.13333334",
        35 => "0.13725491",
        36 => "0.14117648",
        37 => "0.14509805",
        38 => "0.14901961",
        39 => "0.15294118",
        40 => "0.15686275",
        41 => "0.16078432",
        42 => "0.16470589",
        43 => "0.16862746",
        44 => "0.17254902",
        45 => "0.1764706",
        46 => "0.18039216",
        47 => "0.18431373",
        48 => "0.1882353",
        49 => "0.19215687",
        50 => "0.19607843",
        51 => "0.2",
        52 => "0.20392157",
        53 => "0.20784314",
        54 => "0.21176471",
        55 => "0.21568628",
        56 => "0.21960784",
        57 => "0.22352941",
        58 => "0.22745098",
        59 => "0.23137255",
        60 => "0.23529412",
        61 => "0.23921569",
        62 => "0.24313726",
        63 => "0.24705882",
        64 => "0.2509804",
        65 => "0.25490198",
        66 => "0.25882354",
        67 => "0.2627451",
        68 => "0.26666668",
        69 => "0.27058825",
        70 => "0.27450982",
        71 => "0.2784314",
        72 => "0.28235295",
        73 => "0.28627452",
        74 => "0.2901961",
        75 => "0.29411766",
        76 => "0.29803923",
        77 => "0.3019608",
        78 => "0.30588236",
        79 => "0.30980393",
        80 => "0.3137255",
        81 => "0.31764707",
        82 => "0.32156864",
        83 => "0.3254902",
        84 => "0.32941177",
        85 => "0.33333334",
        86 => "0.3372549",
        87 => "0.34117648",
        88 => "0.34509805",
        89 => "0.34901962",
        90 => "0.3529412",
        91 => "0.35686275",
        92 => "0.36078432",
        93 => "0.3647059",
        94 => "0.36862746",
        95 => "0.37254903",
        96 => "0.3764706",
        97 => "0.38039216",
        98 => "0.38431373",
        99 => "0.3882353",
        100 => "0.39215687",
        101 => "0.39607844",
        102 => "0.4",
        103 => "0.40392157",
        104 => "0.40784314",
        105 => "0.4117647",
        106 => "0.41568628",
        107 => "0.41960785",
        108 => "0.42352942",
        109 => "0.42745098",
        110 => "0.43137255",
        111 => "0.43529412",
        112 => "0.4392157",
        113 => "0.44313726",
        114 => "0.44705883",
        115 => "0.4509804",
        116 => "0.45490196",
        117 => "0.45882353",
        118 => "0.4627451",
        119 => "0.46666667",
        120 => "0.47058824",
        121 => "0.4745098",
        122 => "0.47843137",
        123 => "0.48235294",
        124 => "0.4862745",
        125 => "0.49019608",
        126 => "0.49411765",
        127 => "0.49803922",
        128 => "0.5019608",
        129 => "0.5058824",
        130 => "0.50980395",
        131 => "0.5137255",
        132 => "0.5176471",
        133 => "0.52156866",
        134 => "0.5254902",
        135 => "0.5294118",
        136 => "0.53333336",
        137 => "0.5372549",
        138 => "0.5411765",
        139 => "0.54509807",
        140 => "0.54901963",
        141 => "0.5529412",
        142 => "0.5568628",
        143 => "0.56078434",
        144 => "0.5647059",
        145 => "0.5686275",
        146 => "0.57254905",
        147 => "0.5764706",
        148 => "0.5803922",
        149 => "0.58431375",
        150 => "0.5882353",
        151 => "0.5921569",
        152 => "0.59607846",
        153 => "0.6",
        154 => "0.6039216",
        155 => "0.60784316",
        156 => "0.6117647",
        157 => "0.6156863",
        158 => "0.61960787",
        159 => "0.62352943",
        160 => "0.627451",
        161 => "0.6313726",
        162 => "0.63529414",
        163 => "0.6392157",
        164 => "0.6431373",
        165 => "0.64705884",
        166 => "0.6509804",
        167 => "0.654902",
        168 => "0.65882355",
        169 => "0.6627451",
        170 => "0.6666667",
        171 => "0.67058825",
        172 => "0.6745098",
        173 => "0.6784314",
        174 => "0.68235296",
        175 => "0.6862745",
        176 => "0.6901961",
        177 => "0.69411767",
        178 => "0.69803923",
        179 => "0.7019608",
        180 => "0.7058824",
        181 => "0.70980394",
        182 => "0.7137255",
        183 => "0.7176471",
        184 => "0.72156864",
        185 => "0.7254902",
        186 => "0.7294118",
        187 => "0.73333335",
        188 => "0.7372549",
        189 => "0.7411765",
        190 => "0.74509805",
        191 => "0.7490196",
        192 => "0.7529412",
        193 => "0.75686276",
        194 => "0.7607843",
        195 => "0.7647059",
        196 => "0.76862746",
        197 => "0.77254903",
        198 => "0.7764706",
        199 => "0.78039217",
        200 => "0.78431374",
        201 => "0.7882353",
        202 => "0.7921569",
        203 => "0.79607844",
        204 => "0.8",
        205 => "0.8039216",
        206 => "0.80784315",
        207 => "0.8117647",
        208 => "0.8156863",
        209 => "0.81960785",
        210 => "0.8235294",
        211 => "0.827451",
        212 => "0.83137256",
        213 => "0.8352941",
        214 => "0.8392157",
        215 => "0.84313726",
        216 => "0.84705883",
        217 => "0.8509804",
        218 => "0.85490197",
        219 => "0.85882354",
        220 => "0.8627451",
        221 => "0.8666667",
        222 => "0.87058824",
        223 => "0.8745098",
        224 => "0.8784314",
        225 => "0.88235295",
        226 => "0.8862745",
        227 => "0.8901961",
        228 => "0.89411765",
        229 => "0.8980392",
        230 => "0.9019608",
        231 => "0.90588236",
        232 => "0.9098039",
        233 => "0.9137255",
        234 => "0.91764706",
        235 => "0.92156863",
        236 => "0.9254902",
        237 => "0.92941177",
        238 => "0.93333334",
        239 => "0.9372549",
        240 => "0.9411765",
        241 => "0.94509804",
        242 => "0.9490196",
        243 => "0.9529412",
        244 => "0.95686275",
        245 => "0.9607843",
        246 => "0.9647059",
        247 => "0.96862745",
        248 => "0.972549",
        249 => "0.9764706",
        250 => "0.98039216",
        251 => "0.9843137",
        252 => "0.9882353",
        253 => "0.99215686",
        254 => "0.99607843",
        _ => "1",
    }
}

} // verus!
